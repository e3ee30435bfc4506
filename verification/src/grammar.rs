//! The grammar of SPL as spec functions over the characters of the source text.
//!
//! Each rule maps a text and a start position to what it reads there, or to nothing.
//! The alternatives of a rule are tried in order, and the first that succeeds wins
//! (the parser backtracks over a failed alternative). What a rule reads is given as a
//! syntax tree of this module, whose names are sequences of characters; `expr_m` and
//! its siblings give the same view of the parser's own syntax trees.
use vstd::prelude::*;
use crate::absyn::{
    Definition, Expression, Operator, ParameterDefinition, Statement, TypeExpression, Variable,
    VariableDefinition,
};
use crate::lexer::{lex_ident, lex_intlit, lex_tag, is_blank, run_end, skip_ws, lemma_skip_ws, tag_at};

verus! {

/// An expression as read from the text.
pub enum SExpr {
    Bin(Operator, Box<SExpr>, Box<SExpr>),
    Neg(Box<SExpr>),
    Lit(int),
    Var(SVar),
}

/// A variable as read from the text; `annotated` tells whether an array access carries
/// the type that the semantic check fills in.
pub enum SVar {
    Named(Seq<char>),
    Index(Box<SVar>, Box<SExpr>, bool),
}

/// A type as read from the text.
pub enum SType {
    Array(int, Box<SType>),
    Named(Seq<char>),
}

/// A statement as read from the text.
pub enum SStmt {
    Assign(SVar, SExpr),
    If(SExpr, Box<SStmt>, Option<Box<SStmt>>),
    While(SExpr, Box<SStmt>),
    Call(Seq<char>, Seq<SExpr>),
    Empty,
    Compound(Seq<SStmt>),
}

/// A parameter as read from the text: name, type, and whether it is passed by reference.
pub struct SParam {
    pub name: Seq<char>,
    pub typ: SType,
    pub is_reference: bool,
}

/// A local variable as read from the text.
pub struct SVarDef {
    pub name: Seq<char>,
    pub typ: SType,
}

/// A global definition as read from the text.
pub enum SDef {
    Proc(Seq<char>, Seq<SParam>, Seq<SVarDef>, Seq<SStmt>),
    Type(Seq<char>, SType),
}

// The view of the parser's syntax trees.

pub open spec fn expr_m(e: Expression) -> SExpr
    decreases e,
{
    match e {
        Expression::BinaryExpression(b) => SExpr::Bin(b.operator, Box::new(expr_m(b.left)), Box::new(expr_m(b.right))),
        Expression::UnaryExpression(u) => SExpr::Neg(Box::new(expr_m(u.operand))),
        Expression::IntLiteral(v) => SExpr::Lit(v as int),
        Expression::VariableExpression(v) => SExpr::Var(var_m(*v)),
    }
}

pub open spec fn var_m(v: Variable) -> SVar
    decreases v,
{
    match v {
        Variable::NamedVariable(n) => SVar::Named(n@),
        Variable::ArrayAccess(a) => SVar::Index(Box::new(var_m(a.array)), Box::new(expr_m(a.index)), a.typ is Some),
    }
}

pub open spec fn exprs_m(es: Seq<Expression>) -> Seq<SExpr> {
    es.map_values(|e: Expression| expr_m(e))
}

pub open spec fn type_m(t: TypeExpression) -> SType
    decreases t,
{
    match t {
        TypeExpression::ArrayTypeExpression(a) => SType::Array(a.array_size as int, Box::new(type_m(a.base_type))),
        TypeExpression::NamedTypeExpression(n) => SType::Named(n@),
    }
}

pub open spec fn stmt_m(st: Statement) -> SStmt
    decreases st,
{
    match st {
        Statement::AssignStatement(a) => SStmt::Assign(var_m(a.target), expr_m(a.value)),
        Statement::IfStatement(i) => SStmt::If(
            expr_m(i.condition),
            Box::new(stmt_m(i.then_branch)),
            match i.else_branch {
                Some(e) => Some(Box::new(stmt_m(e))),
                None => None,
            },
        ),
        Statement::WhileStatement(w) => SStmt::While(expr_m(w.condition), Box::new(stmt_m(w.body))),
        Statement::CallStatement(c) => SStmt::Call(c.name@, exprs_m(c.arguments@)),
        Statement::EmptyStatement => SStmt::Empty,
        Statement::CompoundStatement(v) => SStmt::Compound(stmts_m(v@)),
    }
}

pub open spec fn stmts_m(ss: Seq<Statement>) -> Seq<SStmt>
    decreases ss,
{
    if ss.len() == 0 {
        Seq::empty()
    } else {
        stmts_m(ss.drop_last()).push(stmt_m(ss.last()))
    }
}

pub open spec fn param_m(p: ParameterDefinition) -> SParam {
    SParam { name: p.name@, typ: type_m(p.type_expression), is_reference: p.is_reference }
}

pub open spec fn params_m(ps: Seq<ParameterDefinition>) -> Seq<SParam> {
    ps.map_values(|p: ParameterDefinition| param_m(p))
}

pub open spec fn vardef_m(v: VariableDefinition) -> SVarDef {
    SVarDef { name: v.name@, typ: type_m(v.type_expression) }
}

pub open spec fn vardefs_m(vs: Seq<VariableDefinition>) -> Seq<SVarDef> {
    vs.map_values(|v: VariableDefinition| vardef_m(v))
}

pub open spec fn def_m(d: Definition) -> SDef {
    match d {
        Definition::ProcedureDefinition(p) => SDef::Proc(p.name@, params_m(p.parameters@), vardefs_m(p.variables@), stmts_m(p.body@)),
        Definition::TypeDefinition(t) => SDef::Type(t.name@, type_m(t.type_expression)),
    }
}

pub open spec fn defs_m(ds: Seq<Definition>) -> Seq<SDef> {
    ds.map_values(|d: Definition| def_m(d))
}

// The rules.

/// `e` lies after `i`, within the text. Every rule that succeeds consumes at least one
/// character; the rules state it where they recurse, so that the recursion is visibly finite.
pub open spec fn ahead(s: Seq<char>, i: int, e: int) -> bool {
    i < e <= s.len()
}

/// The end of the spaces and tabs from `k` on.
pub open spec fn blanks_end(s: Seq<char>, k: int) -> int {
    run_end(s, k, |c: char| is_blank(c))
}

/// A comparison operator: `=`, `#`, `<=`, `<`, `>=`, `>`, tried in this order.
pub open spec fn comparison_op(s: Seq<char>, i: int) -> Option<(int, Operator)> {
    if let Some(e) = lex_tag(s, i, seq!['=']) {
        Some((e, Operator::Equ))
    } else if let Some(e) = lex_tag(s, i, seq!['#']) {
        Some((e, Operator::Neq))
    } else if let Some(e) = lex_tag(s, i, seq!['<', '=']) {
        Some((e, Operator::Lse))
    } else if let Some(e) = lex_tag(s, i, seq!['<']) {
        Some((e, Operator::Lst))
    } else if let Some(e) = lex_tag(s, i, seq!['>', '=']) {
        Some((e, Operator::Gre))
    } else if let Some(e) = lex_tag(s, i, seq!['>']) {
        Some((e, Operator::Grt))
    } else {
        None
    }
}

/// `+` or `-`.
pub open spec fn sum_op(s: Seq<char>, i: int) -> Option<(int, Operator)> {
    if let Some(e) = lex_tag(s, i, seq!['+']) {
        Some((e, Operator::Add))
    } else if let Some(e) = lex_tag(s, i, seq!['-']) {
        Some((e, Operator::Sub))
    } else {
        None
    }
}

/// `*` or `/`.
pub open spec fn product_op(s: Seq<char>, i: int) -> Option<(int, Operator)> {
    if let Some(e) = lex_tag(s, i, seq!['*']) {
        Some((e, Operator::Mul))
    } else if let Some(e) = lex_tag(s, i, seq!['/']) {
        Some((e, Operator::Div))
    } else {
        None
    }
}

/// An expression: a sum followed by any number of comparisons with sums, grouped to the
/// left.
pub open spec fn g_expression(s: Seq<char>, i: int) -> Option<(int, SExpr)>
    decreases s.len() - i, 5int,
{
    match g_sum(s, i) {
        Some((p, x)) => if ahead(s, i, p) { g_comparisons(s, p, x) } else { None },
        None => None,
    }
}

/// The comparisons that follow `acc` at `p`. An operator that is not followed by a sum
/// makes the whole expression fail.
pub open spec fn g_comparisons(s: Seq<char>, p: int, acc: SExpr) -> Option<(int, SExpr)>
    decreases s.len() - p, 6int,
{
    match comparison_op(s, p) {
        None => Some((p, acc)),
        Some((e, op)) => if ahead(s, p, e) {
            match g_sum(s, e) {
                Some((e2, right)) => if ahead(s, e, e2) {
                    g_comparisons(s, e2, SExpr::Bin(op, Box::new(acc), Box::new(right)))
                } else {
                    None
                },
                None => None,
            }
        } else {
            None
        },
    }
}

/// A sum: products joined by `+` and `-`, grouped to the left.
pub open spec fn g_sum(s: Seq<char>, i: int) -> Option<(int, SExpr)>
    decreases s.len() - i, 4int,
{
    match g_product(s, i) {
        Some((p, x)) => if ahead(s, i, p) { g_sum_rest(s, p, x) } else { None },
        None => None,
    }
}

pub open spec fn g_sum_rest(s: Seq<char>, p: int, acc: SExpr) -> Option<(int, SExpr)>
    decreases s.len() - p, 6int,
{
    match sum_op(s, p) {
        None => Some((p, acc)),
        Some((e, op)) => if ahead(s, p, e) {
            match g_product(s, e) {
                Some((e2, right)) => if ahead(s, e, e2) {
                    g_sum_rest(s, e2, SExpr::Bin(op, Box::new(acc), Box::new(right)))
                } else {
                    None
                },
                None => None,
            }
        } else {
            None
        },
    }
}

/// A product: factors joined by `*` and `/`, grouped to the left.
pub open spec fn g_product(s: Seq<char>, i: int) -> Option<(int, SExpr)>
    decreases s.len() - i, 3int,
{
    match g_factor(s, i) {
        Some((p, x)) => if ahead(s, i, p) { g_product_rest(s, p, x) } else { None },
        None => None,
    }
}

pub open spec fn g_product_rest(s: Seq<char>, p: int, acc: SExpr) -> Option<(int, SExpr)>
    decreases s.len() - p, 6int,
{
    match product_op(s, p) {
        None => Some((p, acc)),
        Some((e, op)) => if ahead(s, p, e) {
            match g_factor(s, e) {
                Some((e2, right)) => if ahead(s, e, e2) {
                    g_product_rest(s, e2, SExpr::Bin(op, Box::new(acc), Box::new(right)))
                } else {
                    None
                },
                None => None,
            }
        } else {
            None
        },
    }
}

/// A factor: `-` and a factor, or else a primary expression.
pub open spec fn g_factor(s: Seq<char>, i: int) -> Option<(int, SExpr)>
    decreases s.len() - i, 2int,
{
    match lex_tag(s, i, seq!['-']) {
        Some(e) => if ahead(s, i, e) {
            match g_factor(s, e) {
                Some((e2, x)) => Some((e2, SExpr::Neg(Box::new(x)))),
                None => g_primary(s, i),
            }
        } else {
            g_primary(s, i)
        },
        None => g_primary(s, i),
    }
}

/// A primary expression: a literal, else a variable, else an expression in parentheses.
pub open spec fn g_primary(s: Seq<char>, i: int) -> Option<(int, SExpr)>
    decreases s.len() - i, 1int,
{
    match lex_intlit(s, i) {
        Some((e, v)) => Some((e, SExpr::Lit(v))),
        None => match g_variable(s, i) {
            Some((e, v)) => Some((e, SExpr::Var(v))),
            None => match lex_tag(s, i, seq!['(']) {
                Some(e) => if ahead(s, i, e) {
                    match g_expression(s, e) {
                        Some((e2, x)) => match lex_tag(s, e2, seq![')']) {
                            Some(e3) => Some((e3, x)),
                            None => None,
                        },
                        None => None,
                    }
                } else {
                    None
                },
                None => None,
            },
        },
    }
}

/// A variable: a name followed by any number of indices in brackets.
pub open spec fn g_variable(s: Seq<char>, i: int) -> Option<(int, SVar)>
    decreases s.len() - i, 0int,
{
    match lex_ident(s, i) {
        Some((p, name)) => if ahead(s, i, p) { Some(g_indices(s, p, SVar::Named(name))) } else { None },
        None => None,
    }
}

/// The indices that follow `acc` at `p`: `[`, an expression and `]`, with only spaces and
/// tabs around the brackets. An index that is not complete is left unread.
pub open spec fn g_indices(s: Seq<char>, p: int, acc: SVar) -> (int, SVar)
    decreases s.len() - p, 6int,
{
    let b = blanks_end(s, p);
    if 0 <= b < s.len() && s[b] == '[' {
        let b1 = blanks_end(s, b + 1);
        if ahead(s, p, b1) {
            match g_expression(s, b1) {
                Some((e, index)) => {
                    let b2 = blanks_end(s, e);
                    if 0 <= b2 < s.len() && s[b2] == ']' && ahead(s, p, b2 + 1) {
                        g_indices(s, b2 + 1, SVar::Index(Box::new(acc), Box::new(index), false))
                    } else {
                        (p, acc)
                    }
                },
                None => (p, acc),
            }
        } else {
            (p, acc)
        }
    } else {
        (p, acc)
    }
}

/// A type: `array`, `[`, a literal, `]`, `of` and a type; else the name of a type.
pub open spec fn g_type(s: Seq<char>, i: int) -> Option<(int, SType)>
    decreases s.len() - i,
{
    let array = match lex_tag(s, i, seq!['a', 'r', 'r', 'a', 'y']) {
        Some(e1) => match lex_tag(s, e1, seq!['[']) {
            Some(e2) => match lex_intlit(s, e2) {
                Some((e3, size)) => match lex_tag(s, e3, seq![']']) {
                    Some(e4) => match lex_tag(s, e4, seq!['o', 'f']) {
                        Some(e5) => if ahead(s, i, e5) {
                            match g_type(s, e5) {
                                Some((e6, base)) => Some((e6, SType::Array(size, Box::new(base)))),
                                None => None,
                            }
                        } else {
                            None
                        },
                        None => None,
                    },
                    None => None,
                },
                None => None,
            },
            None => None,
        },
        None => None,
    };
    match array {
        Some(r) => Some(r),
        None => match lex_ident(s, i) {
            Some((e, name)) => Some((e, SType::Named(name))),
            None => None,
        },
    }
}

/// `var`, a name, `:`, a type and `;`.
pub open spec fn g_vardef(s: Seq<char>, i: int) -> Option<(int, SVarDef)> {
    match lex_tag(s, i, seq!['v', 'a', 'r']) {
        Some(e1) => match lex_ident(s, e1) {
            Some((e2, name)) => match lex_tag(s, e2, seq![':']) {
                Some(e3) => match g_type(s, e3) {
                    Some((e4, typ)) => match lex_tag(s, e4, seq![';']) {
                        Some(e5) => Some((e5, SVarDef { name, typ })),
                        None => None,
                    },
                    None => None,
                },
                None => None,
            },
            None => None,
        },
        None => None,
    }
}

/// The variable definitions from `p` on, as many as follow, after `acc`.
pub open spec fn g_vardefs(s: Seq<char>, p: int, acc: Seq<SVarDef>) -> (int, Seq<SVarDef>)
    decreases s.len() - p,
{
    match g_vardef(s, p) {
        Some((e, v)) => if ahead(s, p, e) { g_vardefs(s, e, acc.push(v)) } else { (p, acc) },
        None => (p, acc),
    }
}

/// A parameter: a name, `:` and a type; else `ref`, a name, `:` and a type.
pub open spec fn g_param(s: Seq<char>, i: int) -> Option<(int, SParam)> {
    let by_value = match lex_ident(s, i) {
        Some((e1, name)) => match lex_tag(s, e1, seq![':']) {
            Some(e2) => match g_type(s, e2) {
                Some((e3, typ)) => Some((e3, SParam { name, typ, is_reference: false })),
                None => None,
            },
            None => None,
        },
        None => None,
    };
    match by_value {
        Some(r) => Some(r),
        None => match lex_tag(s, i, seq!['r', 'e', 'f']) {
            Some(e1) => match lex_ident(s, e1) {
                Some((e2, name)) => match lex_tag(s, e2, seq![':']) {
                    Some(e3) => match g_type(s, e3) {
                        Some((e4, typ)) => Some((e4, SParam { name, typ, is_reference: true })),
                        None => None,
                    },
                    None => None,
                },
                None => None,
            },
            None => None,
        },
    }
}

/// The parameters that follow `acc` at `p`, each after a comma. A comma that is not
/// followed by a parameter is left unread.
pub open spec fn g_params_rest(s: Seq<char>, p: int, acc: Seq<SParam>) -> (int, Seq<SParam>)
    decreases s.len() - p,
{
    match lex_tag(s, p, seq![',']) {
        Some(e) => match g_param(s, e) {
            Some((e2, x)) => if ahead(s, p, e2) { g_params_rest(s, e2, acc.push(x)) } else { (p, acc) },
            None => (p, acc),
        },
        None => (p, acc),
    }
}

/// Parameters separated by commas, possibly none.
pub open spec fn g_params(s: Seq<char>, i: int) -> (int, Seq<SParam>) {
    match g_param(s, i) {
        Some((p, x)) => g_params_rest(s, p, seq![x]),
        None => (i, Seq::empty()),
    }
}

/// The arguments that follow `acc` at `p`, each after a comma. A comma that is not
/// followed by an expression is left unread.
pub open spec fn g_arguments_rest(s: Seq<char>, p: int, acc: Seq<SExpr>) -> (int, Seq<SExpr>)
    decreases s.len() - p,
{
    match lex_tag(s, p, seq![',']) {
        Some(e) => match g_expression(s, e) {
            Some((e2, x)) => if ahead(s, p, e2) { g_arguments_rest(s, e2, acc.push(x)) } else { (p, acc) },
            None => (p, acc),
        },
        None => (p, acc),
    }
}

/// Expressions separated by commas, possibly none.
pub open spec fn g_arguments(s: Seq<char>, i: int) -> (int, Seq<SExpr>) {
    match g_expression(s, i) {
        Some((p, x)) => g_arguments_rest(s, p, seq![x]),
        None => (i, Seq::empty()),
    }
}

/// `variable := expression ;`
pub open spec fn g_assign(s: Seq<char>, i: int) -> Option<(int, SStmt)> {
    match g_variable(s, i) {
        Some((e1, target)) => match lex_tag(s, e1, seq![':', '=']) {
            Some(e2) => match g_expression(s, e2) {
                Some((e3, value)) => match lex_tag(s, e3, seq![';']) {
                    Some(e4) => Some((e4, SStmt::Assign(target, value))),
                    None => None,
                },
                None => None,
            },
            None => None,
        },
        None => None,
    }
}

/// `name ( arguments ) ;`
pub open spec fn g_call(s: Seq<char>, i: int) -> Option<(int, SStmt)> {
    match lex_ident(s, i) {
        Some((e1, name)) => match lex_tag(s, e1, seq!['(']) {
            Some(e2) => {
                let (e3, arguments) = g_arguments(s, e2);
                match lex_tag(s, e3, seq![')']) {
                    Some(e4) => match lex_tag(s, e4, seq![';']) {
                        Some(e5) => Some((e5, SStmt::Call(name, arguments))),
                        None => None,
                    },
                    None => None,
                }
            },
            None => None,
        },
        None => None,
    }
}

/// `if ( expression ) statement`, with `else statement` where both follow.
pub open spec fn g_if(s: Seq<char>, i: int) -> Option<(int, SStmt)>
    decreases s.len() - i, 1int,
{
    match lex_tag(s, i, seq!['i', 'f']) {
        Some(e1) => match lex_tag(s, e1, seq!['(']) {
            Some(e2) => match g_expression(s, e2) {
                Some((e3, c)) => match lex_tag(s, e3, seq![')']) {
                    Some(e4) => if ahead(s, i, e4) {
                        match g_statement(s, e4) {
                            Some((e5, t)) => {
                                let without = Some((e5, SStmt::If(c, Box::new(t), None)));
                                match lex_tag(s, e5, seq!['e', 'l', 's', 'e']) {
                                    Some(e6) => if ahead(s, i, e6) {
                                        match g_statement(s, e6) {
                                            Some((e7, f)) => Some((e7, SStmt::If(c, Box::new(t), Some(Box::new(f))))),
                                            None => without,
                                        }
                                    } else {
                                        without
                                    },
                                    None => without,
                                }
                            },
                            None => None,
                        }
                    } else {
                        None
                    },
                    None => None,
                },
                None => None,
            },
            None => None,
        },
        None => None,
    }
}

/// `while ( expression ) statement`
pub open spec fn g_while(s: Seq<char>, i: int) -> Option<(int, SStmt)>
    decreases s.len() - i, 1int,
{
    match lex_tag(s, i, seq!['w', 'h', 'i', 'l', 'e']) {
        Some(e1) => match lex_tag(s, e1, seq!['(']) {
            Some(e2) => match g_expression(s, e2) {
                Some((e3, c)) => match lex_tag(s, e3, seq![')']) {
                    Some(e4) => if ahead(s, i, e4) {
                        match g_statement(s, e4) {
                            Some((e5, body)) => Some((e5, SStmt::While(c, Box::new(body)))),
                            None => None,
                        }
                    } else {
                        None
                    },
                    None => None,
                },
                None => None,
            },
            None => None,
        },
        None => None,
    }
}

/// `{ statements }`
pub open spec fn g_compound(s: Seq<char>, i: int) -> Option<(int, SStmt)>
    decreases s.len() - i, 1int,
{
    match lex_tag(s, i, seq!['{']) {
        Some(e1) => if ahead(s, i, e1) {
            let (e2, list) = g_statements(s, e1, Seq::empty());
            match lex_tag(s, e2, seq!['}']) {
                Some(e3) => Some((e3, SStmt::Compound(list))),
                None => None,
            }
        } else {
            None
        },
        None => None,
    }
}

/// A statement: `;`, else an `if`, an assignment, a `while`, a compound statement or a
/// call, the first of these that can be read.
pub open spec fn g_statement(s: Seq<char>, i: int) -> Option<(int, SStmt)>
    decreases s.len() - i, 2int,
{
    match lex_tag(s, i, seq![';']) {
        Some(e) => Some((e, SStmt::Empty)),
        None => match g_if(s, i) {
            Some(r) => Some(r),
            None => match g_assign(s, i) {
                Some(r) => Some(r),
                None => match g_while(s, i) {
                    Some(r) => Some(r),
                    None => match g_compound(s, i) {
                        Some(r) => Some(r),
                        None => g_call(s, i),
                    },
                },
            },
        },
    }
}

/// The statements from `p` on, as many as follow, after `acc`.
pub open spec fn g_statements(s: Seq<char>, p: int, acc: Seq<SStmt>) -> (int, Seq<SStmt>)
    decreases s.len() - p, 3int,
{
    match g_statement(s, p) {
        Some((e, st)) => if ahead(s, p, e) { g_statements(s, e, acc.push(st)) } else { (p, acc) },
        None => (p, acc),
    }
}

/// `proc name ( parameters ) { variable definitions statements }`
pub open spec fn g_proc(s: Seq<char>, i: int) -> Option<(int, SDef)> {
    match lex_tag(s, i, seq!['p', 'r', 'o', 'c']) {
        Some(e1) => match lex_ident(s, e1) {
            Some((e2, name)) => match lex_tag(s, e2, seq!['(']) {
                Some(e3) => {
                    let (e4, params) = g_params(s, e3);
                    match lex_tag(s, e4, seq![')']) {
                        Some(e5) => match lex_tag(s, e5, seq!['{']) {
                            Some(e6) => {
                                let (e7, vars) = g_vardefs(s, e6, Seq::empty());
                                let (e8, body) = g_statements(s, e7, Seq::empty());
                                match lex_tag(s, e8, seq!['}']) {
                                    Some(e9) => Some((e9, SDef::Proc(name, params, vars, body))),
                                    None => None,
                                }
                            },
                            None => None,
                        },
                        None => None,
                    }
                },
                None => None,
            },
            None => None,
        },
        None => None,
    }
}

/// `type name = type ;`
pub open spec fn g_typedef(s: Seq<char>, i: int) -> Option<(int, SDef)> {
    match lex_tag(s, i, seq!['t', 'y', 'p', 'e']) {
        Some(e1) => match lex_ident(s, e1) {
            Some((e2, name)) => match lex_tag(s, e2, seq!['=']) {
                Some(e3) => match g_type(s, e3) {
                    Some((e4, t)) => match lex_tag(s, e4, seq![';']) {
                        Some(e5) => Some((e5, SDef::Type(name, t))),
                        None => None,
                    },
                    None => None,
                },
                None => None,
            },
            None => None,
        },
        None => None,
    }
}

/// A global definition: a procedure, else a type definition.
pub open spec fn g_definition(s: Seq<char>, i: int) -> Option<(int, SDef)> {
    match g_proc(s, i) {
        Some(r) => Some(r),
        None => g_typedef(s, i),
    }
}

/// The global definitions from `p` on, as many as follow, after `acc`.
pub open spec fn g_definitions(s: Seq<char>, p: int, acc: Seq<SDef>) -> (int, Seq<SDef>)
    decreases s.len() - p,
{
    match g_definition(s, p) {
        Some((e, d)) => if ahead(s, p, e) { g_definitions(s, e, acc.push(d)) } else { (p, acc) },
        None => (p, acc),
    }
}

/// A program: global definitions up to the end of the text. Where the text goes on after
/// the last definition that can be read, its position is the error.
pub open spec fn g_program(s: Seq<char>) -> Result<Seq<SDef>, int> {
    let (p, ds) = g_definitions(s, 0, Seq::empty());
    if p < s.len() {
        Err(p)
    } else {
        Ok(ds)
    }
}

/// Each comparison token stands for its own operator. After white space and comments,
/// `=` is `Equ`, `#` is `Neq`, `<=` is `Lse`, a `<` not followed by `=` is `Lst`, `>=` is
/// `Gre` and a `>` not followed by `=` is `Grt`; the operator ends after its token and the
/// white space after it. Any other character starts no comparison operator.
pub proof fn law_comparison_tokens(s: Seq<char>, i: int)
    requires
        0 <= i <= s.len(),
    ensures
        ({
            let j = skip_ws(s, i);
            &&& (j < s.len() && s[j] == '=') ==> comparison_op(s, i) == Some((skip_ws(s, j + 1), Operator::Equ))
            &&& (j < s.len() && s[j] == '#') ==> comparison_op(s, i) == Some((skip_ws(s, j + 1), Operator::Neq))
            &&& (j + 1 < s.len() && s[j] == '<' && s[j + 1] == '=') ==> comparison_op(s, i) == Some((skip_ws(s, j + 2), Operator::Lse))
            &&& (j < s.len() && s[j] == '<' && !(j + 1 < s.len() && s[j + 1] == '='))
                ==> comparison_op(s, i) == Some((skip_ws(s, j + 1), Operator::Lst))
            &&& (j + 1 < s.len() && s[j] == '>' && s[j + 1] == '=') ==> comparison_op(s, i) == Some((skip_ws(s, j + 2), Operator::Gre))
            &&& (j < s.len() && s[j] == '>' && !(j + 1 < s.len() && s[j + 1] == '='))
                ==> comparison_op(s, i) == Some((skip_ws(s, j + 1), Operator::Grt))
            &&& (j >= s.len() || !(s[j] == '=' || s[j] == '#' || s[j] == '<' || s[j] == '>')) ==> comparison_op(s, i) is None
        }),
{
    let j = skip_ws(s, i);
    lemma_skip_ws(s, i);
    if j < s.len() {
        assert(tag_at(s, j, seq!['=']) == (s[j] == '=')) by {
            if s[j] == '=' { assert(s.subrange(j, j + 1) =~= seq!['=']); }
            if tag_at(s, j, seq!['=']) { assert(s.subrange(j, j + 1)[0] == s[j]); }
        }
        assert(tag_at(s, j, seq!['#']) == (s[j] == '#')) by {
            if s[j] == '#' { assert(s.subrange(j, j + 1) =~= seq!['#']); }
            if tag_at(s, j, seq!['#']) { assert(s.subrange(j, j + 1)[0] == s[j]); }
        }
        assert(tag_at(s, j, seq!['<']) == (s[j] == '<')) by {
            if s[j] == '<' { assert(s.subrange(j, j + 1) =~= seq!['<']); }
            if tag_at(s, j, seq!['<']) { assert(s.subrange(j, j + 1)[0] == s[j]); }
        }
        assert(tag_at(s, j, seq!['>']) == (s[j] == '>')) by {
            if s[j] == '>' { assert(s.subrange(j, j + 1) =~= seq!['>']); }
            if tag_at(s, j, seq!['>']) { assert(s.subrange(j, j + 1)[0] == s[j]); }
        }
        assert(tag_at(s, j, seq!['<', '=']) == (j + 1 < s.len() && s[j] == '<' && s[j + 1] == '=')) by {
            if j + 1 < s.len() && s[j] == '<' && s[j + 1] == '=' { assert(s.subrange(j, j + 2) =~= seq!['<', '=']); }
            if tag_at(s, j, seq!['<', '=']) {
                assert(s.subrange(j, j + 2)[0] == s[j]);
                assert(s.subrange(j, j + 2)[1] == s[j + 1]);
            }
        }
        assert(tag_at(s, j, seq!['>', '=']) == (j + 1 < s.len() && s[j] == '>' && s[j + 1] == '=')) by {
            if j + 1 < s.len() && s[j] == '>' && s[j + 1] == '=' { assert(s.subrange(j, j + 2) =~= seq!['>', '=']); }
            if tag_at(s, j, seq!['>', '=']) {
                assert(s.subrange(j, j + 2)[0] == s[j]);
                assert(s.subrange(j, j + 2)[1] == s[j + 1]);
            }
        }
    } else {
        assert(!tag_at(s, j, seq!['=']) && !tag_at(s, j, seq!['#']) && !tag_at(s, j, seq!['<']) && !tag_at(s, j, seq!['>'])
            && !tag_at(s, j, seq!['<', '=']) && !tag_at(s, j, seq!['>', '=']));
    }
}

/// The arithmetic tokens stand for their operators: after white space and comments, `+`
/// is `Add` and `-` is `Sub`, `*` is `Mul` and `/` is `Div`, each ending after its token
/// and the white space after it; any other character starts no such operator.
pub proof fn law_arithmetic_tokens(s: Seq<char>, i: int)
    requires
        0 <= i <= s.len(),
    ensures
        ({
            let j = skip_ws(s, i);
            &&& (j < s.len() && s[j] == '+') ==> sum_op(s, i) == Some((skip_ws(s, j + 1), Operator::Add))
            &&& (j < s.len() && s[j] == '-') ==> sum_op(s, i) == Some((skip_ws(s, j + 1), Operator::Sub))
            &&& (j >= s.len() || !(s[j] == '+' || s[j] == '-')) ==> sum_op(s, i) is None
            &&& (j < s.len() && s[j] == '*') ==> product_op(s, i) == Some((skip_ws(s, j + 1), Operator::Mul))
            &&& (j < s.len() && s[j] == '/') ==> product_op(s, i) == Some((skip_ws(s, j + 1), Operator::Div))
            &&& (j >= s.len() || !(s[j] == '*' || s[j] == '/')) ==> product_op(s, i) is None
        }),
{
    let j = skip_ws(s, i);
    lemma_skip_ws(s, i);
    if j < s.len() {
        assert(tag_at(s, j, seq!['+']) == (s[j] == '+')) by {
            if s[j] == '+' { assert(s.subrange(j, j + 1) =~= seq!['+']); }
            if tag_at(s, j, seq!['+']) { assert(s.subrange(j, j + 1)[0] == s[j]); }
        }
        assert(tag_at(s, j, seq!['-']) == (s[j] == '-')) by {
            if s[j] == '-' { assert(s.subrange(j, j + 1) =~= seq!['-']); }
            if tag_at(s, j, seq!['-']) { assert(s.subrange(j, j + 1)[0] == s[j]); }
        }
        assert(tag_at(s, j, seq!['*']) == (s[j] == '*')) by {
            if s[j] == '*' { assert(s.subrange(j, j + 1) =~= seq!['*']); }
            if tag_at(s, j, seq!['*']) { assert(s.subrange(j, j + 1)[0] == s[j]); }
        }
        assert(tag_at(s, j, seq!['/']) == (s[j] == '/')) by {
            if s[j] == '/' { assert(s.subrange(j, j + 1) =~= seq!['/']); }
            if tag_at(s, j, seq!['/']) { assert(s.subrange(j, j + 1)[0] == s[j]); }
        }
    } else {
        assert(!tag_at(s, j, seq!['+']) && !tag_at(s, j, seq!['-']) && !tag_at(s, j, seq!['*']) && !tag_at(s, j, seq!['/']));
    }
}

} // verus!
