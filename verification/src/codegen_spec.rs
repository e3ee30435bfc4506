//! Properties of generated three-address code: where its labels stand and where its
//! jumps lead, and what a program must satisfy to be translated.
use vstd::prelude::*;
use crate::absyn::{Definition, Expression, IfStatement, Operator, Statement, Variable, WhileStatement};
use crate::quadrupel::{Quadrupel, QuadrupelOp, QuadrupelResult, spec_is_relop};
use crate::text::{spec_decimal, digit_char};
use crate::types::byte_size_fits;

verus! {

/// The name of the `n`-th generated label: `L` followed by `n` in decimal.
pub open spec fn label_name(n: nat) -> Seq<char> {
    seq!['L'] + spec_decimal(n)
}

/// The label a quadruple marks, if it marks one: operation `Default`, no operands and a
/// label as result.
pub open spec fn quad_label(q: Quadrupel) -> Option<Seq<char>> {
    if q.op == QuadrupelOp::Default && q.arg1 is Empty && q.arg2 is Empty {
        match q.result {
            QuadrupelResult::Label(l) => Some(l@),
            _ => None,
        }
    } else {
        None
    }
}

/// Whether a quadruple is a jump.
pub open spec fn is_jump(q: Quadrupel) -> bool {
    q.op == QuadrupelOp::Goto || spec_is_relop(q.op)
}

/// The label a jump leads to.
pub open spec fn quad_jump(q: Quadrupel) -> Option<Seq<char>> {
    if is_jump(q) {
        match q.result {
            QuadrupelResult::Label(l) => Some(l@),
            _ => None,
        }
    } else {
        None
    }
}

/// The code marks the label `l` somewhere.
pub open spec fn code_defines(code: Seq<Quadrupel>, l: Seq<char>) -> bool {
    exists|i: int| 0 <= i < code.len() && quad_label(#[trigger] code[i]) == Some(l)
}

/// The labels the code marks.
pub open spec fn labels_of(code: Seq<Quadrupel>) -> Set<Seq<char>> {
    Set::new(|l: Seq<char>| code_defines(code, l))
}

/// The labels the code jumps to.
pub open spec fn targets_of(code: Seq<Quadrupel>) -> Set<Seq<char>> {
    Set::new(|l: Seq<char>| exists|i: int| 0 <= i < code.len() && quad_jump(#[trigger] code[i]) == Some(l))
}

/// Every jump names a label as its target.
pub open spec fn jumps_labelled(code: Seq<Quadrupel>) -> bool {
    forall|i: int| 0 <= i < code.len() && is_jump(#[trigger] code[i]) ==> quad_jump(code[i]) is Some
}

/// Every jump leads to a label that the code itself marks.
pub open spec fn jumps_closed(code: Seq<Quadrupel>) -> bool {
    jumps_labelled(code) && targets_of(code).subset_of(labels_of(code))
}

/// The generated labels numbered in `[lo, hi)`.
pub open spec fn label_range(lo: nat, hi: nat) -> Set<Seq<char>> {
    Set::new(|l: Seq<char>| exists|n: nat| lo <= n < hi && l == #[trigger] label_name(n))
}

/// No label is marked twice.
pub open spec fn labels_unique(code: Seq<Quadrupel>) -> bool {
    forall|i: int, j: int| 0 <= i < j < code.len() && (#[trigger] quad_label(code[i])) is Some
        ==> quad_label(code[i]) != #[trigger] quad_label(code[j])
}

/// Code that neither marks labels nor jumps.
pub open spec fn plain(code: Seq<Quadrupel>) -> bool {
    forall|i: int| 0 <= i < code.len() ==> quad_label(#[trigger] code[i]) is None && !is_jump(code[i])
}

/// The code of a statement: its jumps stay inside it, its labels are generated, numbered
/// in `[lo, hi)`, and marked once each.
pub open spec fn well_labelled(code: Seq<Quadrupel>, lo: nat, hi: nat) -> bool {
    jumps_closed(code) && labels_of(code).subset_of(label_range(lo, hi)) && labels_unique(code)
}

/// The code of a whole procedure: it starts with the procedure's name as a label, every
/// jump leads to a label it marks, and the generated labels are marked once each.
pub open spec fn proc_code_ok(code: Seq<Quadrupel>, name: Seq<char>) -> bool {
    &&& code.len() > 0
    &&& quad_label(code[0]) == Some(name)
    &&& jumps_closed(code)
    &&& labels_unique(code.drop_first())
    &&& exists|hi: nat| labels_of(code.drop_first()).subset_of(label_range(0, hi))
}

/// The labels and jump targets of concatenated code are those of its parts; it is unique
/// where both parts are and share no label.
pub proof fn lemma_concat(a: Seq<Quadrupel>, b: Seq<Quadrupel>)
    ensures
        labels_of(a + b) == labels_of(a).union(labels_of(b)),
        targets_of(a + b) == targets_of(a).union(targets_of(b)),
        jumps_labelled(a + b) == (jumps_labelled(a) && jumps_labelled(b)),
        labels_unique(a) && labels_unique(b) && labels_of(a).disjoint(labels_of(b)) ==> labels_unique(a + b),
        plain(a) && plain(b) ==> plain(a + b),
{
    let c = a + b;
    assert forall|l: Seq<char>| labels_of(c).contains(l) <==> labels_of(a).union(labels_of(b)).contains(l) by {
        if code_defines(c, l) {
            let i = choose|i: int| 0 <= i < c.len() && quad_label(#[trigger] c[i]) == Some(l);
            if i < a.len() {
                assert(a[i] == c[i]);
            } else {
                assert(b[i - a.len()] == c[i]);
            }
        }
        if code_defines(a, l) {
            let i = choose|i: int| 0 <= i < a.len() && quad_label(#[trigger] a[i]) == Some(l);
            assert(c[i] == a[i]);
        }
        if code_defines(b, l) {
            let i = choose|i: int| 0 <= i < b.len() && quad_label(#[trigger] b[i]) == Some(l);
            assert(c[i + a.len()] == b[i]);
        }
    }
    assert(labels_of(c) =~= labels_of(a).union(labels_of(b)));
    assert forall|l: Seq<char>| targets_of(c).contains(l) <==> targets_of(a).union(targets_of(b)).contains(l) by {
        if exists|i: int| 0 <= i < c.len() && quad_jump(#[trigger] c[i]) == Some(l) {
            let i = choose|i: int| 0 <= i < c.len() && quad_jump(#[trigger] c[i]) == Some(l);
            if i < a.len() {
                assert(a[i] == c[i]);
            } else {
                assert(b[i - a.len()] == c[i]);
            }
        }
        if exists|i: int| 0 <= i < a.len() && quad_jump(#[trigger] a[i]) == Some(l) {
            let i = choose|i: int| 0 <= i < a.len() && quad_jump(#[trigger] a[i]) == Some(l);
            assert(c[i] == a[i]);
        }
        if exists|i: int| 0 <= i < b.len() && quad_jump(#[trigger] b[i]) == Some(l) {
            let i = choose|i: int| 0 <= i < b.len() && quad_jump(#[trigger] b[i]) == Some(l);
            assert(c[i + a.len()] == b[i]);
        }
    }
    assert(targets_of(c) =~= targets_of(a).union(targets_of(b)));
    if jumps_labelled(a) && jumps_labelled(b) {
        assert forall|i: int| 0 <= i < c.len() && is_jump(#[trigger] c[i]) implies quad_jump(c[i]) is Some by {
            if i < a.len() {
                assert(a[i] == c[i]);
            } else {
                assert(b[i - a.len()] == c[i]);
            }
        }
    }
    if jumps_labelled(c) {
        assert forall|i: int| 0 <= i < a.len() && is_jump(#[trigger] a[i]) implies quad_jump(a[i]) is Some by {
            assert(c[i] == a[i]);
        }
        assert forall|i: int| 0 <= i < b.len() && is_jump(#[trigger] b[i]) implies quad_jump(b[i]) is Some by {
            assert(c[i + a.len()] == b[i]);
        }
    }
    if labels_unique(a) && labels_unique(b) && labels_of(a).disjoint(labels_of(b)) {
        assert forall|i: int, j: int| 0 <= i < j < c.len() && (#[trigger] quad_label(c[i])) is Some
            implies quad_label(c[i]) != #[trigger] quad_label(c[j]) by {
            if j < a.len() {
                assert(a[i] == c[i] && a[j] == c[j]);
            } else if i >= a.len() {
                assert(b[i - a.len()] == c[i] && b[j - a.len()] == c[j]);
            } else {
                assert(a[i] == c[i] && b[j - a.len()] == c[j]);
                let l = quad_label(c[i])->0;
                assert(labels_of(a).contains(l));
                if quad_label(c[j]) == Some(l) {
                    assert(labels_of(b).contains(l));
                }
            }
        }
    }
    if plain(a) && plain(b) {
        assert forall|i: int| 0 <= i < c.len() implies quad_label(#[trigger] c[i]) is None && !is_jump(c[i]) by {
            if i < a.len() {
                assert(a[i] == c[i]);
            } else {
                assert(b[i - a.len()] == c[i]);
            }
        }
    }
}

/// Code whose jumps name labels, whose labels are marked once each and lie in `s`; its
/// jumps may lead outside it.
pub open spec fn frag(code: Seq<Quadrupel>, s: Set<Seq<char>>) -> bool {
    jumps_labelled(code) && labels_unique(code) && labels_of(code).subset_of(s)
}

/// Two fragments with disjoint label sets join into one.
pub proof fn lemma_join(a: Seq<Quadrupel>, b: Seq<Quadrupel>, sa: Set<Seq<char>>, sb: Set<Seq<char>>)
    requires
        frag(a, sa),
        frag(b, sb),
        sa.disjoint(sb),
    ensures
        frag(a + b, sa.union(sb)),
        labels_of(a + b) == labels_of(a).union(labels_of(b)),
        targets_of(a + b) == targets_of(a).union(targets_of(b)),
{
    lemma_concat(a, b);
}

/// The code of two statements in a row, numbered one range after the other.
pub proof fn lemma_seq_join(a: Seq<Quadrupel>, b: Seq<Quadrupel>, lo: nat, mid: nat, hi: nat)
    requires
        well_labelled(a, lo, mid),
        well_labelled(b, mid, hi),
        lo <= mid <= hi,
    ensures
        well_labelled(a + b, lo, hi),
{
    lemma_ranges_disjoint(lo, mid, mid, hi);
    lemma_join(a, b, label_range(lo, mid), label_range(mid, hi));
    lemma_range_mono(lo, mid, lo, hi);
    lemma_range_mono(mid, hi, lo, hi);
}

/// Plain code marks no label and jumps nowhere.
pub proof fn lemma_plain(code: Seq<Quadrupel>, lo: nat)
    requires
        plain(code),
    ensures
        well_labelled(code, lo, lo),
        frag(code, Set::<Seq<char>>::empty()),
        labels_of(code) == Set::<Seq<char>>::empty(),
        targets_of(code) == Set::<Seq<char>>::empty(),
        jumps_labelled(code),
{
    assert(labels_of(code) =~= Set::<Seq<char>>::empty());
    assert(targets_of(code) =~= Set::<Seq<char>>::empty());
}

/// The labels and targets of a single quadruple.
pub proof fn lemma_single(q: Quadrupel)
    ensures
        labels_of(seq![q]) == (match quad_label(q) {
            Some(l) => Set::empty().insert(l),
            None => Set::<Seq<char>>::empty(),
        }),
        targets_of(seq![q]) == (match quad_jump(q) {
            Some(l) => Set::empty().insert(l),
            None => Set::<Seq<char>>::empty(),
        }),
        jumps_labelled(seq![q]) == (is_jump(q) ==> quad_jump(q) is Some),
        labels_unique(seq![q]),
{
    let s = seq![q];
    assert(s[0] == q);
    assert(labels_of(s) =~= (match quad_label(q) {
        Some(l) => Set::empty().insert(l),
        None => Set::<Seq<char>>::empty(),
    }));
    assert(targets_of(s) =~= (match quad_jump(q) {
        Some(l) => Set::empty().insert(l),
        None => Set::<Seq<char>>::empty(),
    }));
}

/// Generated labels from disjoint number ranges differ.
pub proof fn lemma_ranges_disjoint(a: nat, b: nat, c: nat, d: nat)
    requires
        b <= c,
    ensures
        label_range(a, b).disjoint(label_range(c, d)),
{
    assert forall|l: Seq<char>| label_range(a, b).contains(l) implies !label_range(c, d).contains(l) by {
        let n = choose|n: nat| a <= n < b && l == #[trigger] label_name(n);
        if label_range(c, d).contains(l) {
            let m = choose|m: nat| c <= m < d && l == #[trigger] label_name(m);
            lemma_label_name_injective(n, m);
        }
    }
}

/// A smaller range of label numbers gives fewer labels.
pub proof fn lemma_range_mono(a: nat, b: nat, c: nat, d: nat)
    requires
        c <= a,
        b <= d,
    ensures
        label_range(a, b).subset_of(label_range(c, d)),
{
    assert forall|l: Seq<char>| label_range(a, b).contains(l) implies label_range(c, d).contains(l) by {
        let n = choose|n: nat| a <= n < b && l == #[trigger] label_name(n);
        assert(c <= n < d && l == label_name(n));
    }
}

/// The label numbered `n` lies in every range that holds `n`.
pub proof fn lemma_range_has(n: nat, a: nat, b: nat)
    requires
        a <= n < b,
    ensures
        label_range(a, b).contains(label_name(n)),
{
}

/// Whether a binary operator is a comparison.
pub open spec fn is_relational(op: Operator) -> bool {
    !(op == Operator::Add || op == Operator::Sub || op == Operator::Mul || op == Operator::Div)
}

/// A variable can be translated: every array access carries an array type whose element
/// size fits in an `i32`.
pub open spec fn var_gen_ok(v: Variable) -> bool
    decreases v,
{
    match v {
        Variable::NamedVariable(_) => true,
        Variable::ArrayAccess(a) => match a.typ {
            Some(at) => byte_size_fits(*at.base_type) && var_gen_ok(a.array) && expr_gen_ok(a.index),
            None => false,
        },
    }
}

/// An expression can be translated: comparisons occur only as conditions.
pub open spec fn expr_gen_ok(e: Expression) -> bool
    decreases e,
{
    match e {
        Expression::BinaryExpression(b) => !is_relational(b.operator) && expr_gen_ok(b.left) && expr_gen_ok(b.right),
        Expression::UnaryExpression(u) => expr_gen_ok(u.operand),
        Expression::IntLiteral(_) => true,
        Expression::VariableExpression(v) => var_gen_ok(*v),
    }
}

/// A condition can be translated: it is a comparison.
pub open spec fn cond_gen_ok(e: Expression) -> bool {
    match e {
        Expression::BinaryExpression(b) => is_relational(b.operator) && expr_gen_ok(b.left) && expr_gen_ok(b.right),
        _ => false,
    }
}

/// All arguments can be translated.
pub open spec fn exprs_gen_ok(s: Seq<Expression>) -> bool {
    forall|i: int| 0 <= i < s.len() ==> expr_gen_ok(#[trigger] s[i])
}

/// A statement can be translated: conditions are comparisons, array accesses carry their
/// types, and calls have fewer than `i32::MAX` arguments.
pub open spec fn stmt_gen_ok(s: Statement) -> bool
    decreases s,
{
    match s {
        Statement::AssignStatement(a) => var_gen_ok(a.target) && expr_gen_ok(a.value),
        Statement::IfStatement(i) => cond_gen_ok(i.condition) && stmt_gen_ok(i.then_branch) && match i.else_branch {
            Some(e) => stmt_gen_ok(e),
            None => true,
        },
        Statement::WhileStatement(w) => cond_gen_ok(w.condition) && stmt_gen_ok(w.body),
        Statement::CallStatement(c) => c.arguments@.len() < i32::MAX && exprs_gen_ok(c.arguments@),
        Statement::EmptyStatement => true,
        Statement::CompoundStatement(v) => stmts_gen_ok(v@),
    }
}

/// All statements can be translated.
pub open spec fn stmts_gen_ok(s: Seq<Statement>) -> bool
    decreases s,
{
    if s.len() == 0 {
        true
    } else {
        stmts_gen_ok(s.drop_last()) && stmt_gen_ok(s.last())
    }
}

/// An upper bound on the temporaries and labels the translation of a variable creates.
pub open spec fn var_cost(v: Variable) -> nat
    decreases v,
{
    match v {
        Variable::NamedVariable(_) => 0,
        Variable::ArrayAccess(a) => var_cost(a.array) + expr_cost(a.index) + 4,
    }
}

/// An upper bound on the temporaries and labels the translation of an expression creates.
pub open spec fn expr_cost(e: Expression) -> nat
    decreases e,
{
    match e {
        Expression::BinaryExpression(b) => expr_cost(b.left) + expr_cost(b.right) + 2,
        Expression::UnaryExpression(u) => expr_cost(u.operand) + 1,
        Expression::IntLiteral(_) => 0,
        Expression::VariableExpression(v) => var_cost(*v) + 1,
    }
}

/// The summed bound of a list of expressions, one more for each.
pub open spec fn exprs_cost(s: Seq<Expression>) -> nat
    decreases s.len(),
{
    if s.len() == 0 {
        0
    } else {
        exprs_cost(s.drop_last()) + expr_cost(s.last()) + 1
    }
}

/// An upper bound on the temporaries and labels the translation of a statement creates.
pub open spec fn stmt_cost(s: Statement) -> nat
    decreases s,
{
    match s {
        Statement::AssignStatement(a) => var_cost(a.target) + expr_cost(a.value) + 2,
        Statement::IfStatement(i) => expr_cost(i.condition) + stmt_cost(i.then_branch) + match i.else_branch {
            Some(e) => stmt_cost(e),
            None => 0,
        } + 4,
        Statement::WhileStatement(w) => expr_cost(w.condition) + stmt_cost(w.body) + 4,
        Statement::CallStatement(c) => exprs_cost(c.arguments@) + 1,
        Statement::EmptyStatement => 0,
        Statement::CompoundStatement(v) => stmts_cost(v@),
    }
}

/// The summed bound of a list of statements.
pub open spec fn stmts_cost(s: Seq<Statement>) -> nat
    decreases s,
{
    if s.len() == 0 {
        0
    } else {
        stmts_cost(s.drop_last()) + stmt_cost(s.last())
    }
}

/// The bound of an optional statement.
pub open spec fn opt_cost(o: Option<Statement>) -> nat {
    match o {
        Some(e) => stmt_cost(e),
        None => 0,
    }
}

/// The bound of an `if` statement.
pub open spec fn if_cost(i: IfStatement) -> nat {
    expr_cost(i.condition) + stmt_cost(i.then_branch) + opt_cost(i.else_branch) + 4
}

/// The bound of a `while` statement.
pub open spec fn while_cost(w: WhileStatement) -> nat {
    expr_cost(w.condition) + stmt_cost(w.body) + 4
}

/// Every procedure of the definitions can be translated, with its temporaries counted
/// in a `usize`.
pub open spec fn program_gen_ok(defs: Seq<Definition>) -> bool {
    forall|i: int| 0 <= i < defs.len() ==> match #[trigger] defs[i] {
        Definition::ProcedureDefinition(p) => stmts_gen_ok(p.body@) && stmts_cost(p.body@) <= usize::MAX,
        Definition::TypeDefinition(_) => true,
    }
}

/// The summed bound of all procedures of the definitions.
pub open spec fn defs_cost(defs: Seq<Definition>) -> nat
    decreases defs.len(),
{
    if defs.len() == 0 {
        0
    } else {
        defs_cost(defs.drop_last()) + match defs.last() {
            Definition::ProcedureDefinition(p) => stmts_cost(p.body@),
            Definition::TypeDefinition(_) => 0,
        }
    }
}

/// The name of a procedure definition.
pub open spec fn def_proc_name(d: Definition) -> Option<Seq<char>> {
    match d {
        Definition::ProcedureDefinition(p) => Some(p.name@),
        Definition::TypeDefinition(_) => None,
    }
}

/// The names of the procedures among the definitions.
pub open spec fn proc_names(defs: Seq<Definition>) -> Set<Seq<char>> {
    Set::new(|n: Seq<char>| exists|i: int| 0 <= i < defs.len() && def_proc_name(#[trigger] defs[i]) == Some(n))
}

/// The procedure names among the first `i + 1` definitions are those among the first `i`
/// and the name of the `i`-th, if it is a procedure.
pub proof fn lemma_proc_names_step(defs: Seq<Definition>, i: int)
    requires
        0 <= i < defs.len(),
    ensures
        forall|k: Seq<char>| proc_names(defs.take(i + 1)).contains(k)
            <==> (proc_names(defs.take(i)).contains(k) || def_proc_name(defs[i]) == Some(k)),
{
    assert forall|k: Seq<char>| proc_names(defs.take(i + 1)).contains(k)
        <==> (proc_names(defs.take(i)).contains(k) || def_proc_name(defs[i]) == Some(k)) by {
        let a = defs.take(i + 1);
        let b = defs.take(i);
        if proc_names(a).contains(k) {
            let j = choose|j: int| 0 <= j < a.len() && def_proc_name(#[trigger] a[j]) == Some(k);
            if j < i {
                assert(b[j] == a[j]);
            } else {
                assert(a[j] == defs[i]);
            }
        }
        if proc_names(b).contains(k) {
            let j = choose|j: int| 0 <= j < b.len() && def_proc_name(#[trigger] b[j]) == Some(k);
            assert(a[j] == b[j]);
        }
        if def_proc_name(defs[i]) == Some(k) {
            assert(a[i] == defs[i]);
        }
    }
}

/// The bound of a prefix of the definitions grows with the prefix.
pub proof fn lemma_defs_cost_prefix(defs: Seq<Definition>, i: int, j: int)
    requires
        0 <= i <= j <= defs.len(),
    ensures
        defs_cost(defs.take(i)) <= defs_cost(defs.take(j)),
    decreases j - i,
{
    if i < j {
        assert(defs.take(j).drop_last() =~= defs.take(j - 1));
        lemma_defs_cost_prefix(defs, i, j - 1);
    }
}

/// Decimal texts of different numbers differ.
pub proof fn lemma_decimal_injective(a: nat, b: nat)
    requires
        spec_decimal(a) == spec_decimal(b),
    ensures
        a == b,
    decreases a + b,
{
    lemma_decimal_nonempty(a);
    lemma_decimal_nonempty(b);
    let da = spec_decimal(a);
    let db = spec_decimal(b);
    if a < 10 && b < 10 {
        assert(da[0] == db[0]);
        lemma_digit_char_injective(a, b);
    } else if a < 10 {
        lemma_decimal_nonempty(b / 10);
        assert(db.len() >= 2);
    } else if b < 10 {
        lemma_decimal_nonempty(a / 10);
        assert(da.len() >= 2);
    } else {
        assert(da.last() == db.last());
        lemma_digit_char_injective(a % 10, b % 10);
        assert(da.drop_last() =~= spec_decimal(a / 10));
        assert(db.drop_last() =~= spec_decimal(b / 10));
        lemma_decimal_injective(a / 10, b / 10);
    }
}

/// The decimal text of a number is never empty.
pub proof fn lemma_decimal_nonempty(a: nat)
    ensures
        spec_decimal(a).len() >= 1,
    decreases a,
{
    if a >= 10 {
        lemma_decimal_nonempty(a / 10);
    }
}

proof fn lemma_digit_char_injective(a: nat, b: nat)
    requires
        a < 10,
        b < 10,
        digit_char(a) == digit_char(b),
    ensures
        a == b,
{
}

/// Different label numbers give different label names.
pub proof fn lemma_label_name_injective(a: nat, b: nat)
    requires
        label_name(a) == label_name(b),
    ensures
        a == b,
{
    assert(label_name(a).drop_first() =~= spec_decimal(a));
    assert(label_name(b).drop_first() =~= spec_decimal(b));
    lemma_decimal_injective(a, b);
}


/// The bound of a prefix of a statement list grows with the prefix.
pub proof fn lemma_stmts_cost_prefix(s: Seq<Statement>, i: int, j: int)
    requires
        0 <= i <= j <= s.len(),
    ensures
        stmts_cost(s.take(i)) <= stmts_cost(s.take(j)),
    decreases j - i,
{
    if i < j {
        assert(s.take(j).drop_last() =~= s.take(j - 1));
        lemma_stmts_cost_prefix(s, i, j - 1);
    }
}

/// Every statement of a translatable list is translatable.
pub proof fn lemma_stmts_gen_ok_index(s: Seq<Statement>, i: int)
    requires
        stmts_gen_ok(s),
        0 <= i < s.len(),
    ensures
        stmt_gen_ok(s[i]),
    decreases s.len(),
{
    if i < s.len() - 1 {
        assert(s.drop_last()[i] == s[i]);
        lemma_stmts_gen_ok_index(s.drop_last(), i);
    }
}

/// The bound of every argument is at most the bound of the list.
pub proof fn lemma_exprs_cost_prefix(s: Seq<Expression>, i: int, j: int)
    requires
        0 <= i <= j <= s.len(),
    ensures
        exprs_cost(s.take(i)) <= exprs_cost(s.take(j)),
    decreases j - i,
{
    if i < j {
        assert(s.take(j).drop_last() =~= s.take(j - 1));
        lemma_exprs_cost_prefix(s, i, j - 1);
    }
}

} // verus!
