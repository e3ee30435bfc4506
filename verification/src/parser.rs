//! The grammar of SPL: a recursive-descent parser over the characters of the source text
//! that tries the alternatives of each rule in order and backtracks when one fails.
use vstd::prelude::*;
use crate::absyn::{
    ArrayAccess, ArrayTypeExpression, AssignStatement, BinaryExpression, CallStatement, Definition,
    Expression, IfStatement, Operator, ParameterDefinition, ProcedureDefinition, Program, Statement,
    TypeDefinition, TypeExpression, UnaryExpression, UnaryOperator, Variable, VariableDefinition,
    WhileStatement,
};
use crate::lexer::{ident, intlit, parse_tag, is_blank, lemma_run_end};
use crate::grammar::{
    SExpr, SStmt, SParam, SVarDef, SDef, stmt_m, stmts_m, exprs_m, type_m, param_m, params_m,
    vardef_m, vardefs_m, def_m, defs_m, g_type, g_vardef, g_vardefs, g_param, g_params,
    g_params_rest, g_arguments, g_arguments_rest, g_if, g_assign, g_while, g_compound, g_call,
    g_statement, g_statements, g_definition, g_definitions, g_program, expr_m, var_m, blanks_end, comparison_op, sum_op, product_op, g_expression, g_comparisons,
    g_sum, g_sum_rest, g_product, g_product_rest, g_factor, g_primary, g_variable, g_indices,
};

verus! {

/// What a successful parse from `i` reports: an end after `i` within the text.
pub open spec fn advanced<T>(r: Option<(usize, T)>, i: int, n: int) -> bool {
    match r {
        Some((e, _)) => i < e <= n,
        None => true,
    }
}

/// The position after the spaces and tabs from `i` on.
fn skip_blanks(s: &Vec<char>, i: usize) -> (r: usize)
    requires
        i <= s@.len(),
    ensures
        r == blanks_end(s@, i as int),
        i <= r <= s@.len(),
{
    let mut k = i;
    proof {
        lemma_run_end(s@, i as int, |c: char| is_blank(c));
    }
    while k < s.len() && (s[k] == ' ' || s[k] == '\t')
        invariant
            i <= k <= s@.len(),
            blanks_end(s@, k as int) == blanks_end(s@, i as int),
        decreases s@.len() - k,
    {
        proof {
            assert((|c: char| is_blank(c))(s@[k as int]));
        }
        k = k + 1;
    }
    proof {
        if k < s@.len() {
            assert(!(|c: char| is_blank(c))(s@[k as int]));
        }
    }
    k
}

/// What a rule over expressions read, seen through `expr_m`.
pub open spec fn expr_result(r: Option<(usize, Expression)>) -> Option<(int, SExpr)> {
    match r {
        Some((e, x)) => Some((e as int, expr_m(x))),
        None => None,
    }
}

/// A comparison operator at `i`.
fn read_comparison_op(s: &Vec<char>, i: usize) -> (r: Option<(usize, Operator)>)
    requires
        i <= s@.len(),
    ensures
        match r {
            Some((e, op)) => comparison_op(s@, i as int) == Some((e as int, op)) && i < e <= s@.len(),
            None => comparison_op(s@, i as int) is None,
        },
{
    proof {
        assert(seq!['='] =~= ['=']@);
        assert(seq!['#'] =~= ['#']@);
        assert(seq!['<', '='] =~= ['<', '=']@);
        assert(seq!['<'] =~= ['<']@);
        assert(seq!['>', '='] =~= ['>', '=']@);
        assert(seq!['>'] =~= ['>']@);
    }
    if let Some(e) = parse_tag(s, i, &['=']) {
        Some((e, Operator::Equ))
    } else if let Some(e) = parse_tag(s, i, &['#']) {
        Some((e, Operator::Neq))
    } else if let Some(e) = parse_tag(s, i, &['<', '=']) {
        Some((e, Operator::Lse))
    } else if let Some(e) = parse_tag(s, i, &['<']) {
        Some((e, Operator::Lst))
    } else if let Some(e) = parse_tag(s, i, &['>', '=']) {
        Some((e, Operator::Gre))
    } else if let Some(e) = parse_tag(s, i, &['>']) {
        Some((e, Operator::Grt))
    } else {
        None
    }
}

/// `+` or `-` at `i`.
fn read_sum_op(s: &Vec<char>, i: usize) -> (r: Option<(usize, Operator)>)
    requires
        i <= s@.len(),
    ensures
        match r {
            Some((e, op)) => sum_op(s@, i as int) == Some((e as int, op)) && i < e <= s@.len(),
            None => sum_op(s@, i as int) is None,
        },
{
    proof {
        assert(seq!['+'] =~= ['+']@);
        assert(seq!['-'] =~= ['-']@);
    }
    if let Some(e) = parse_tag(s, i, &['+']) {
        Some((e, Operator::Add))
    } else if let Some(e) = parse_tag(s, i, &['-']) {
        Some((e, Operator::Sub))
    } else {
        None
    }
}

/// `*` or `/` at `i`.
fn read_product_op(s: &Vec<char>, i: usize) -> (r: Option<(usize, Operator)>)
    requires
        i <= s@.len(),
    ensures
        match r {
            Some((e, op)) => product_op(s@, i as int) == Some((e as int, op)) && i < e <= s@.len(),
            None => product_op(s@, i as int) is None,
        },
{
    proof {
        assert(seq!['*'] =~= ['*']@);
        assert(seq!['/'] =~= ['/']@);
    }
    if let Some(e) = parse_tag(s, i, &['*']) {
        Some((e, Operator::Mul))
    } else if let Some(e) = parse_tag(s, i, &['/']) {
        Some((e, Operator::Div))
    } else {
        None
    }
}

/// An expression: comparisons of sums.
pub fn expression(s: &Vec<char>, i: usize) -> (r: Option<(usize, Expression)>)
    requires
        i <= s@.len(),
    ensures
        expr_result(r) == g_expression(s@, i as int),
        advanced(r, i as int, s@.len() as int),
    decreases s@.len() - i, 5int,
{
    let (mut pos, mut expr) = match expression2(s, i) {
        Some(x) => x,
        None => {
            return None;
        },
    };
    let ghost target = g_expression(s@, i as int);
    let mut go = true;
    while go
        invariant
            i < pos <= s@.len(),
            target == g_expression(s@, i as int),
            go ==> target == g_comparisons(s@, pos as int, expr_m(expr)),
            !go ==> target == Some((pos as int, expr_m(expr))),
        decreases s@.len() - pos, if go { 1int } else { 0int },
    {
        match read_comparison_op(s, pos) {
            Some((e, operator)) => {
                match expression2(s, e) {
                    Some((e2, right)) => {
                        expr = Expression::BinaryExpression(Box::new(BinaryExpression { operator, left: expr, right }));
                        pos = e2;
                    },
                    None => {
                        return None;
                    },
                }
            },
            None => {
                go = false;
            },
        }
    }
    Some((pos, expr))
}

/// Sums and differences of products, left to right.
fn expression2(s: &Vec<char>, i: usize) -> (r: Option<(usize, Expression)>)
    requires
        i <= s@.len(),
    ensures
        expr_result(r) == g_sum(s@, i as int),
        advanced(r, i as int, s@.len() as int),
    decreases s@.len() - i, 4int,
{
    let (mut pos, mut expr) = match expression3(s, i) {
        Some(x) => x,
        None => {
            return None;
        },
    };
    let ghost target = g_sum(s@, i as int);
    let mut go = true;
    while go
        invariant
            i < pos <= s@.len(),
            target == g_sum(s@, i as int),
            go ==> target == g_sum_rest(s@, pos as int, expr_m(expr)),
            !go ==> target == Some((pos as int, expr_m(expr))),
        decreases s@.len() - pos, if go { 1int } else { 0int },
    {
        match read_sum_op(s, pos) {
            Some((e, operator)) => {
                match expression3(s, e) {
                    Some((e2, right)) => {
                        expr = Expression::BinaryExpression(Box::new(BinaryExpression { operator, left: expr, right }));
                        pos = e2;
                    },
                    None => {
                        return None;
                    },
                }
            },
            None => {
                go = false;
            },
        }
    }
    Some((pos, expr))
}

/// Products and quotients of factors, left to right.
fn expression3(s: &Vec<char>, i: usize) -> (r: Option<(usize, Expression)>)
    requires
        i <= s@.len(),
    ensures
        expr_result(r) == g_product(s@, i as int),
        advanced(r, i as int, s@.len() as int),
    decreases s@.len() - i, 3int,
{
    let (mut pos, mut expr) = match expression4(s, i) {
        Some(x) => x,
        None => {
            return None;
        },
    };
    let ghost target = g_product(s@, i as int);
    let mut go = true;
    while go
        invariant
            i < pos <= s@.len(),
            target == g_product(s@, i as int),
            go ==> target == g_product_rest(s@, pos as int, expr_m(expr)),
            !go ==> target == Some((pos as int, expr_m(expr))),
        decreases s@.len() - pos, if go { 1int } else { 0int },
    {
        match read_product_op(s, pos) {
            Some((e, operator)) => {
                match expression4(s, e) {
                    Some((e2, right)) => {
                        expr = Expression::BinaryExpression(Box::new(BinaryExpression { operator, left: expr, right }));
                        pos = e2;
                    },
                    None => {
                        return None;
                    },
                }
            },
            None => {
                go = false;
            },
        }
    }
    Some((pos, expr))
}

/// A negated factor, or a primary expression.
fn expression4(s: &Vec<char>, i: usize) -> (r: Option<(usize, Expression)>)
    requires
        i <= s@.len(),
    ensures
        expr_result(r) == g_factor(s@, i as int),
        advanced(r, i as int, s@.len() as int),
    decreases s@.len() - i, 2int,
{
    proof {
        assert(seq!['-'] =~= ['-']@);
    }
    if let Some(e) = parse_tag(s, i, &['-']) {
        if let Some((e2, operand)) = expression4(s, e) {
            return Some((e2, Expression::UnaryExpression(Box::new(UnaryExpression { operator: UnaryOperator::Minus, operand }))));
        }
    }
    expression5(s, i)
}

/// A literal, a variable, or an expression in parentheses.
fn expression5(s: &Vec<char>, i: usize) -> (r: Option<(usize, Expression)>)
    requires
        i <= s@.len(),
    ensures
        expr_result(r) == g_primary(s@, i as int),
        advanced(r, i as int, s@.len() as int),
    decreases s@.len() - i, 1int,
{
    proof {
        assert(seq!['('] =~= ['(']@);
        assert(seq![')'] =~= [')']@);
    }
    if let Some((e, v)) = intlit(s, i) {
        return Some((e, Expression::IntLiteral(v)));
    }
    if let Some((e, var)) = variable(s, i) {
        return Some((e, Expression::VariableExpression(Box::new(var))));
    }
    if let Some(e) = parse_tag(s, i, &['(']) {
        if let Some((e2, ex)) = expression(s, e) {
            if let Some(e3) = parse_tag(s, e2, &[')']) {
                return Some((e3, ex));
            }
        }
    }
    None
}

/// A name followed by any number of indices in brackets.
fn variable(s: &Vec<char>, i: usize) -> (r: Option<(usize, Variable)>)
    requires
        i <= s@.len(),
    ensures
        match r {
            Some((e, v)) => g_variable(s@, i as int) == Some((e as int, var_m(v))),
            None => g_variable(s@, i as int) is None,
        },
        advanced(r, i as int, s@.len() as int),
    decreases s@.len() - i, 0int,
{
    let (mut pos, name) = match ident(s, i) {
        Some(x) => x,
        None => {
            return None;
        },
    };
    let mut var = Variable::NamedVariable(name);
    let ghost target = g_variable(s@, i as int);
    let mut go = true;
    while go
        invariant
            i < pos <= s@.len(),
            target == g_variable(s@, i as int),
            go ==> target == Some(g_indices(s@, pos as int, var_m(var))),
            !go ==> target == Some((pos as int, var_m(var))),
        decreases s@.len() - pos, if go { 1int } else { 0int },
    {
        let b = skip_blanks(s, pos);
        let mut found = false;
        if b < s.len() && s[b] == '[' {
            let b1 = skip_blanks(s, b + 1);
            if let Some((e, index)) = expression(s, b1) {
                let b2 = skip_blanks(s, e);
                if b2 < s.len() && s[b2] == ']' {
                    var = Variable::ArrayAccess(Box::new(ArrayAccess { array: var, index, typ: None }));
                    pos = b2 + 1;
                    found = true;
                }
            }
        }
        if !found {
            go = false;
        }
    }
    Some((pos, var))
}

/// A type: `array [n] of t`, or a type's name.
fn type_expression(s: &Vec<char>, i: usize) -> (r: Option<(usize, TypeExpression)>)
    requires
        i <= s@.len(),
    ensures
        match r {
            Some((e, t)) => g_type(s@, i as int) == Some((e as int, type_m(t))),
            None => g_type(s@, i as int) is None,
        },
        advanced(r, i as int, s@.len() as int),
    decreases s@.len() - i,
{
    proof {
        assert(seq!['a', 'r', 'r', 'a', 'y'] =~= ['a', 'r', 'r', 'a', 'y']@);
        assert(seq!['['] =~= ['[']@);
        assert(seq![']'] =~= [']']@);
        assert(seq!['o', 'f'] =~= ['o', 'f']@);
    }
    if let Some(e) = parse_tag(s, i, &['a', 'r', 'r', 'a', 'y']) {
        if let Some(e) = parse_tag(s, e, &['[']) {
            if let Some((e, size)) = intlit(s, e) {
                if let Some(e) = parse_tag(s, e, &[']']) {
                    if let Some(e) = parse_tag(s, e, &['o', 'f']) {
                        if let Some((e, base_type)) = type_expression(s, e) {
                            let ate = ArrayTypeExpression { array_size: size as usize, base_type };
                            return Some((e, TypeExpression::ArrayTypeExpression(Box::new(ate))));
                        }
                    }
                }
            }
        }
    }
    match ident(s, i) {
        Some((e, name)) => Some((e, TypeExpression::NamedTypeExpression(name))),
        None => None,
    }
}

/// `var name : type ;`
fn variable_definition(s: &Vec<char>, i: usize) -> (r: Option<(usize, VariableDefinition)>)
    requires
        i <= s@.len(),
    ensures
        match r {
            Some((e, v)) => g_vardef(s@, i as int) == Some((e as int, vardef_m(v))),
            None => g_vardef(s@, i as int) is None,
        },
        advanced(r, i as int, s@.len() as int),
{
    proof {
        assert(seq!['v', 'a', 'r'] =~= ['v', 'a', 'r']@);
        assert(seq![':'] =~= [':']@);
        assert(seq![';'] =~= [';']@);
    }
    let e = parse_tag(s, i, &['v', 'a', 'r'])?;
    let (e, name) = ident(s, e)?;
    let e = parse_tag(s, e, &[':'])?;
    let (e, type_expression) = type_expression(s, e)?;
    let e = parse_tag(s, e, &[';'])?;
    Some((e, VariableDefinition { name, type_expression }))
}

/// A parameter: `name : type`, or `ref name : type`.
fn parameter(s: &Vec<char>, i: usize) -> (r: Option<(usize, ParameterDefinition)>)
    requires
        i <= s@.len(),
    ensures
        match r {
            Some((e, p)) => g_param(s@, i as int) == Some((e as int, param_m(p))),
            None => g_param(s@, i as int) is None,
        },
        advanced(r, i as int, s@.len() as int),
{
    proof {
        assert(seq!['r', 'e', 'f'] =~= ['r', 'e', 'f']@);
        assert(seq![':'] =~= [':']@);
    }
    if let Some((e, name)) = ident(s, i) {
        if let Some(e) = parse_tag(s, e, &[':']) {
            if let Some((e, type_expression)) = type_expression(s, e) {
                return Some((e, ParameterDefinition { name, type_expression, is_reference: false }));
            }
        }
    }
    let e = parse_tag(s, i, &['r', 'e', 'f'])?;
    let (e, name) = ident(s, e)?;
    let e = parse_tag(s, e, &[':'])?;
    let (e, type_expression) = type_expression(s, e)?;
    Some((e, ParameterDefinition { name, type_expression, is_reference: true }))
}

/// Parameters separated by commas, possibly none.
fn parameter_list(s: &Vec<char>, i: usize) -> (r: (usize, Vec<ParameterDefinition>))
    requires
        i <= s@.len(),
    ensures
        g_params(s@, i as int) == (r.0 as int, params_m(r.1@)),
        i <= r.0 <= s@.len(),
{
    let mut list: Vec<ParameterDefinition> = Vec::new();
    let (mut pos, first) = match parameter(s, i) {
        Some(x) => x,
        None => {
            proof {
                assert(params_m(list@) =~= Seq::<SParam>::empty());
            }
            return (i, list);
        },
    };
    list.push(first);
    proof {
        assert(params_m(list@) =~= seq![param_m(first)]);
    }
    let ghost target = g_params(s@, i as int);
    let mut go = true;
    while go
        invariant
            i < pos <= s@.len(),
            go ==> target == g_params_rest(s@, pos as int, params_m(list@)),
            !go ==> target == (pos as int, params_m(list@)),
        decreases s@.len() - pos, if go { 1int } else { 0int },
    {
        let mut found = false;
        proof {
            assert(seq![','] =~= [',']@);
        }
        if let Some(e) = parse_tag(s, pos, &[',']) {
            if let Some((e2, p)) = parameter(s, e) {
                let ghost before = list@;
                list.push(p);
                proof {
                    assert(params_m(list@) =~= params_m(before).push(param_m(p)));
                }
                pos = e2;
                found = true;
            }
        }
        if !found {
            go = false;
        }
    }
    (pos, list)
}

/// Expressions separated by commas, possibly none.
fn argument_list(s: &Vec<char>, i: usize) -> (r: (usize, Vec<Expression>))
    requires
        i <= s@.len(),
    ensures
        g_arguments(s@, i as int) == (r.0 as int, exprs_m(r.1@)),
        i <= r.0 <= s@.len(),
{
    let mut list: Vec<Expression> = Vec::new();
    let (mut pos, first) = match expression(s, i) {
        Some(x) => x,
        None => {
            proof {
                assert(exprs_m(list@) =~= Seq::<SExpr>::empty());
            }
            return (i, list);
        },
    };
    list.push(first);
    proof {
        assert(exprs_m(list@) =~= seq![expr_m(first)]);
    }
    let ghost target = g_arguments(s@, i as int);
    let mut go = true;
    while go
        invariant
            i < pos <= s@.len(),
            go ==> target == g_arguments_rest(s@, pos as int, exprs_m(list@)),
            !go ==> target == (pos as int, exprs_m(list@)),
        decreases s@.len() - pos, if go { 1int } else { 0int },
    {
        let mut found = false;
        proof {
            assert(seq![','] =~= [',']@);
        }
        if let Some(e) = parse_tag(s, pos, &[',']) {
            if let Some((e2, a)) = expression(s, e) {
                let ghost before = list@;
                list.push(a);
                proof {
                    assert(exprs_m(list@) =~= exprs_m(before).push(expr_m(a)));
                }
                pos = e2;
                found = true;
            }
        }
        if !found {
            go = false;
        }
    }
    (pos, list)
}

/// What a rule over statements read, seen through `stmt_m`.
pub open spec fn stmt_result(r: Option<(usize, Statement)>) -> Option<(int, SStmt)> {
    match r {
        Some((e, x)) => Some((e as int, stmt_m(x))),
        None => None,
    }
}

/// `if ( expression ) statement`, with `else statement` where both follow.
fn if_statement(s: &Vec<char>, i: usize) -> (r: Option<(usize, Statement)>)
    requires
        i <= s@.len(),
    ensures
        stmt_result(r) == g_if(s@, i as int),
        advanced(r, i as int, s@.len() as int),
    decreases s@.len() - i, 1int,
{
    proof {
        assert(seq!['i', 'f'] =~= ['i', 'f']@);
        assert(seq!['('] =~= ['(']@);
        assert(seq![')'] =~= [')']@);
        assert(seq!['e', 'l', 's', 'e'] =~= ['e', 'l', 's', 'e']@);
    }
    let e = parse_tag(s, i, &['i', 'f'])?;
    let e = parse_tag(s, e, &['('])?;
    let (e, condition) = expression(s, e)?;
    let e = parse_tag(s, e, &[')'])?;
    let (e, then_branch) = statement(s, e)?;
    if let Some(e2) = parse_tag(s, e, &['e', 'l', 's', 'e']) {
        if let Some((e3, else_branch)) = statement(s, e2) {
            let st = IfStatement { condition, then_branch, else_branch: Some(else_branch) };
            return Some((e3, Statement::IfStatement(Box::new(st))));
        }
    }
    let st = IfStatement { condition, then_branch, else_branch: None };
    Some((e, Statement::IfStatement(Box::new(st))))
}

/// `variable := expression ;`
fn assign_statement(s: &Vec<char>, i: usize) -> (r: Option<(usize, Statement)>)
    requires
        i <= s@.len(),
    ensures
        stmt_result(r) == g_assign(s@, i as int),
        advanced(r, i as int, s@.len() as int),
{
    proof {
        assert(seq![':', '='] =~= [':', '=']@);
        assert(seq![';'] =~= [';']@);
    }
    let (e, target) = variable(s, i)?;
    let e = parse_tag(s, e, &[':', '='])?;
    let (e, value) = expression(s, e)?;
    let e = parse_tag(s, e, &[';'])?;
    Some((e, Statement::AssignStatement(Box::new(AssignStatement { target, value }))))
}

/// `while ( expression ) statement`
fn while_statement(s: &Vec<char>, i: usize) -> (r: Option<(usize, Statement)>)
    requires
        i <= s@.len(),
    ensures
        stmt_result(r) == g_while(s@, i as int),
        advanced(r, i as int, s@.len() as int),
    decreases s@.len() - i, 1int,
{
    proof {
        assert(seq!['w', 'h', 'i', 'l', 'e'] =~= ['w', 'h', 'i', 'l', 'e']@);
        assert(seq!['('] =~= ['(']@);
        assert(seq![')'] =~= [')']@);
    }
    let e = parse_tag(s, i, &['w', 'h', 'i', 'l', 'e'])?;
    let e = parse_tag(s, e, &['('])?;
    let (e, condition) = expression(s, e)?;
    let e = parse_tag(s, e, &[')'])?;
    let (e, body) = statement(s, e)?;
    Some((e, Statement::WhileStatement(Box::new(WhileStatement { condition, body }))))
}

/// `{ statements }`
fn compound_statement(s: &Vec<char>, i: usize) -> (r: Option<(usize, Statement)>)
    requires
        i <= s@.len(),
    ensures
        stmt_result(r) == g_compound(s@, i as int),
        advanced(r, i as int, s@.len() as int),
    decreases s@.len() - i, 1int,
{
    proof {
        assert(seq!['{'] =~= ['{']@);
        assert(seq!['}'] =~= ['}']@);
    }
    let e = parse_tag(s, i, &['{'])?;
    let (e, list) = statement_list(s, e);
    let e = parse_tag(s, e, &['}'])?;
    Some((e, Statement::CompoundStatement(list)))
}

/// `name ( arguments ) ;`
fn call_statement(s: &Vec<char>, i: usize) -> (r: Option<(usize, Statement)>)
    requires
        i <= s@.len(),
    ensures
        stmt_result(r) == g_call(s@, i as int),
        advanced(r, i as int, s@.len() as int),
{
    proof {
        assert(seq!['('] =~= ['(']@);
        assert(seq![')'] =~= [')']@);
        assert(seq![';'] =~= [';']@);
    }
    let (e, name) = ident(s, i)?;
    let e = parse_tag(s, e, &['('])?;
    let (e, arguments) = argument_list(s, e);
    let e = parse_tag(s, e, &[')'])?;
    let e = parse_tag(s, e, &[';'])?;
    Some((e, Statement::CallStatement(Box::new(CallStatement { name, arguments }))))
}

/// A statement: empty, `if`, assignment, `while`, compound, or call, tried in this order.
pub fn statement(s: &Vec<char>, i: usize) -> (r: Option<(usize, Statement)>)
    requires
        i <= s@.len(),
    ensures
        stmt_result(r) == g_statement(s@, i as int),
        advanced(r, i as int, s@.len() as int),
    decreases s@.len() - i, 2int,
{
    proof {
        assert(seq![';'] =~= [';']@);
    }
    if let Some(e) = parse_tag(s, i, &[';']) {
        return Some((e, Statement::EmptyStatement));
    }
    if let Some(r) = if_statement(s, i) {
        return Some(r);
    }
    if let Some(r) = assign_statement(s, i) {
        return Some(r);
    }
    if let Some(r) = while_statement(s, i) {
        return Some(r);
    }
    if let Some(r) = compound_statement(s, i) {
        return Some(r);
    }
    call_statement(s, i)
}

/// Statements, as many as follow, possibly none.
pub fn statement_list(s: &Vec<char>, i: usize) -> (r: (usize, Vec<Statement>))
    requires
        i <= s@.len(),
    ensures
        g_statements(s@, i as int, Seq::empty()) == (r.0 as int, stmts_m(r.1@)),
        i <= r.0 <= s@.len(),
    decreases s@.len() - i, 3int,
{
    let mut list: Vec<Statement> = Vec::new();
    let mut pos = i;
    let ghost target = g_statements(s@, i as int, Seq::empty());
    proof {
        assert(stmts_m(list@) =~= Seq::<SStmt>::empty());
    }
    let mut go = true;
    while go
        invariant
            i <= pos <= s@.len(),
            go ==> target == g_statements(s@, pos as int, stmts_m(list@)),
            !go ==> target == (pos as int, stmts_m(list@)),
        decreases s@.len() - pos, if go { 1int } else { 0int },
    {
        match statement(s, pos) {
            Some((e, st)) => {
                let ghost before = list@;
                list.push(st);
                proof {
                    assert(list@.drop_last() =~= before);
                }
                pos = e;
            },
            None => {
                go = false;
            },
        }
    }
    (pos, list)
}

/// Variable definitions, as many as follow, possibly none.
fn variable_list(s: &Vec<char>, i: usize) -> (r: (usize, Vec<VariableDefinition>))
    requires
        i <= s@.len(),
    ensures
        g_vardefs(s@, i as int, Seq::empty()) == (r.0 as int, vardefs_m(r.1@)),
        i <= r.0 <= s@.len(),
{
    let mut list: Vec<VariableDefinition> = Vec::new();
    let mut pos = i;
    let ghost target = g_vardefs(s@, i as int, Seq::empty());
    proof {
        assert(vardefs_m(list@) =~= Seq::<SVarDef>::empty());
    }
    let mut go = true;
    while go
        invariant
            i <= pos <= s@.len(),
            go ==> target == g_vardefs(s@, pos as int, vardefs_m(list@)),
            !go ==> target == (pos as int, vardefs_m(list@)),
        decreases s@.len() - pos, if go { 1int } else { 0int },
    {
        match variable_definition(s, pos) {
            Some((e, vd)) => {
                let ghost before = list@;
                list.push(vd);
                proof {
                    assert(vardefs_m(list@) =~= vardefs_m(before).push(vardef_m(vd)));
                }
                pos = e;
            },
            None => {
                go = false;
            },
        }
    }
    (pos, list)
}

/// A global definition: `proc name(parameters) { variables statements }`, or
/// `type name = type;`.
fn global_definition(s: &Vec<char>, i: usize) -> (r: Option<(usize, Definition)>)
    requires
        i <= s@.len(),
    ensures
        match r {
            Some((e, d)) => g_definition(s@, i as int) == Some((e as int, def_m(d))),
            None => g_definition(s@, i as int) is None,
        },
        advanced(r, i as int, s@.len() as int),
{
    proof {
        assert(seq!['p', 'r', 'o', 'c'] =~= ['p', 'r', 'o', 'c']@);
        assert(seq!['('] =~= ['(']@);
        assert(seq![')'] =~= [')']@);
        assert(seq!['{'] =~= ['{']@);
        assert(seq!['}'] =~= ['}']@);
        assert(seq!['t', 'y', 'p', 'e'] =~= ['t', 'y', 'p', 'e']@);
        assert(seq!['='] =~= ['=']@);
        assert(seq![';'] =~= [';']@);
    }
    if let Some(e) = parse_tag(s, i, &['p', 'r', 'o', 'c']) {
        if let Some((e, name)) = ident(s, e) {
            if let Some(e) = parse_tag(s, e, &['(']) {
                let (e, parameters) = parameter_list(s, e);
                if let Some(e) = parse_tag(s, e, &[')']) {
                    if let Some(e) = parse_tag(s, e, &['{']) {
                        let (e, variables) = variable_list(s, e);
                        let (e, body) = statement_list(s, e);
                        if let Some(e) = parse_tag(s, e, &['}']) {
                            let pd = ProcedureDefinition { name, parameters, body, variables };
                            return Some((e, Definition::ProcedureDefinition(Box::new(pd))));
                        }
                    }
                }
            }
        }
    }
    let e = parse_tag(s, i, &['t', 'y', 'p', 'e'])?;
    let (e, name) = ident(s, e)?;
    let e = parse_tag(s, e, &['='])?;
    let (e, type_expression) = type_expression(s, e)?;
    let e = parse_tag(s, e, &[';'])?;
    Some((e, Definition::TypeDefinition(Box::new(TypeDefinition { name, type_expression }))))
}

/// Parses a whole program: global definitions, as many as follow. The text must end
/// after them; otherwise the position where no further definition could be read is the
/// error.
pub fn parse(input: &Vec<char>) -> (r: Result<Program, usize>)
    ensures
        match r {
            Ok(p) => g_program(input@) == Ok::<Seq<SDef>, int>(defs_m(p.definitions@)),
            Err(pos) => g_program(input@) == Err::<Seq<SDef>, int>(pos as int) && pos < input@.len(),
        },
{
    let mut definitions: Vec<Definition> = Vec::new();
    let mut pos: usize = 0;
    let ghost target = g_definitions(input@, 0, Seq::empty());
    proof {
        assert(defs_m(definitions@) =~= Seq::<SDef>::empty());
    }
    let mut go = true;
    while go
        invariant
            pos <= input@.len(),
            go ==> target == g_definitions(input@, pos as int, defs_m(definitions@)),
            !go ==> target == (pos as int, defs_m(definitions@)),
        decreases input@.len() - pos, if go { 1int } else { 0int },
    {
        match global_definition(input, pos) {
            Some((e, d)) => {
                let ghost before = definitions@;
                definitions.push(d);
                proof {
                    assert(defs_m(definitions@) =~= defs_m(before).push(def_m(d)));
                }
                pos = e;
            },
            None => {
                go = false;
            },
        }
    }
    if pos < input.len() {
        Err(pos)
    } else {
        Ok(Program { definitions })
    }
}

} // verus!
