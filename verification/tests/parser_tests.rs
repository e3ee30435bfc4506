use spl_compiler::absyn::{Definition, Expression, Operator, Statement, TypeExpression, Variable};
use spl_compiler::lexer::{ident, intlit, parse_tag, parse_whitespace};
use spl_compiler::parser::{expression, parse, statement};

fn chars(s: &str) -> Vec<char> {
    s.chars().collect()
}

#[test]
fn whitespace_and_comments_are_skipped() {
    let s = chars("  // a comment\n\t x");
    assert_eq!(parse_whitespace(&s, 0), 17);
    let s = chars("//only a comment");
    assert_eq!(parse_whitespace(&s, 0), 16);
    let s = chars("x");
    assert_eq!(parse_whitespace(&s, 0), 0);
}

#[test]
fn comment_with_lone_carriage_return_is_not_skipped() {
    let s = chars(" //a\rb");
    assert_eq!(parse_whitespace(&s, 0), 1);
}

#[test]
fn tags_take_surrounding_space() {
    let s = chars("  proc  main");
    assert_eq!(parse_tag(&s, 0, &['p', 'r', 'o', 'c']), Some(8));
    assert_eq!(parse_tag(&s, 0, &['t', 'y', 'p', 'e']), None);
}

#[test]
fn identifiers() {
    let s = chars(" _ab1 c");
    let (e, name) = ident(&s, 0).unwrap();
    assert_eq!(name, "_ab1");
    assert_eq!(e, 6);
    let s = chars("1abc");
    assert!(ident(&s, 0).is_none());
    let s = chars("äpfel");
    assert_eq!(ident(&s, 0).unwrap().1, "äpfel");
}

#[test]
fn integer_literals() {
    assert_eq!(intlit(&chars("42 "), 0), Some((3, 42)));
    assert_eq!(intlit(&chars("0x1F"), 0), Some((4, 31)));
    assert_eq!(intlit(&chars("0xg"), 0), Some((1, 0)));
    assert_eq!(intlit(&chars("'a'"), 0), Some((3, 97)));
    assert_eq!(intlit(&chars("'\\n'"), 0), Some((4, 10)));
    assert_eq!(intlit(&chars("2147483647"), 0), Some((10, 2147483647)));
    assert_eq!(intlit(&chars("2147483648"), 0), None);
    assert_eq!(intlit(&chars("x"), 0), None);
}

#[test]
fn expressions_bind_products_tighter() {
    let s = chars("1 + 2 * 3");
    let (e, ex) = expression(&s, 0).unwrap();
    assert_eq!(e, 9);
    match ex {
        Expression::BinaryExpression(b) => {
            assert_eq!(b.operator, Operator::Add);
            match b.right {
                Expression::BinaryExpression(r) => assert_eq!(r.operator, Operator::Mul),
                _ => panic!("expected a product"),
            }
        },
        _ => panic!("expected a sum"),
    }
}

#[test]
fn comparison_prefers_two_character_operators() {
    let s = chars("a <= b");
    match expression(&s, 0).unwrap().1 {
        Expression::BinaryExpression(b) => assert_eq!(b.operator, Operator::Lse),
        _ => panic!("expected a comparison"),
    }
    let s = chars("a >= b");
    match expression(&s, 0).unwrap().1 {
        Expression::BinaryExpression(b) => assert_eq!(b.operator, Operator::Gre),
        _ => panic!("expected a comparison"),
    }
}

#[test]
fn array_access_with_several_indices() {
    let s = chars("a[1][i] := 2;");
    let (e, st) = statement(&s, 0).unwrap();
    assert_eq!(e, s.len());
    match st {
        Statement::AssignStatement(a) => match a.target {
            Variable::ArrayAccess(outer) => match outer.array {
                Variable::ArrayAccess(inner) => match inner.array {
                    Variable::NamedVariable(n) => assert_eq!(n, "a"),
                    _ => panic!("expected the array's name"),
                },
                _ => panic!("expected a nested access"),
            },
            _ => panic!("expected an array access"),
        },
        _ => panic!("expected an assignment"),
    }
}

#[test]
fn keyword_prefix_is_an_identifier() {
    let s = chars("iffy := 3;");
    match statement(&s, 0).unwrap().1 {
        Statement::AssignStatement(_) => {},
        _ => panic!("expected an assignment"),
    }
}

#[test]
fn if_with_and_without_else() {
    let s = chars("if (a < b) x := 1; else x := 2;");
    match statement(&s, 0).unwrap().1 {
        Statement::IfStatement(i) => assert!(i.else_branch.is_some()),
        _ => panic!("expected an if"),
    }
    let s = chars("if (a < b) x := 1;");
    match statement(&s, 0).unwrap().1 {
        Statement::IfStatement(i) => assert!(i.else_branch.is_none()),
        _ => panic!("expected an if"),
    }
}

#[test]
fn whole_program() {
    let src = "type vec = array [3] of int;\n\
               proc add(ref r: int, x: int) { r := r + x; }\n\
               proc main() { var v: vec; var s: int; s := 0; add(s, 4); printi(s); }";
    let p = parse(&chars(src)).unwrap();
    assert_eq!(p.definitions.len(), 3);
    match &p.definitions[0] {
        Definition::TypeDefinition(t) => {
            assert_eq!(t.name, "vec");
            match &t.type_expression {
                TypeExpression::ArrayTypeExpression(a) => assert_eq!(a.array_size, 3),
                _ => panic!("expected an array type"),
            }
        },
        _ => panic!("expected a type definition"),
    }
    match &p.definitions[1] {
        Definition::ProcedureDefinition(pd) => {
            assert_eq!(pd.name, "add");
            assert_eq!(pd.parameters.len(), 2);
            assert!(pd.parameters[0].is_reference);
            assert!(!pd.parameters[1].is_reference);
        },
        _ => panic!("expected a procedure"),
    }
    match &p.definitions[2] {
        Definition::ProcedureDefinition(pd) => {
            assert_eq!(pd.variables.len(), 2);
            assert_eq!(pd.body.len(), 3);
        },
        _ => panic!("expected a procedure"),
    }
}

#[test]
fn empty_input_is_the_empty_program() {
    assert_eq!(parse(&chars("")).unwrap().definitions.len(), 0);
    assert_eq!(parse(&chars("  // nothing\n")).err(), Some(0));
    assert_eq!(parse(&chars("type t = int;  // trailing\n")).unwrap().definitions.len(), 1);
}

#[test]
fn syntax_errors_are_reported_with_their_position() {
    assert_eq!(parse(&chars("proc main() { x := ; }")).err(), Some(0));
    assert_eq!(parse(&chars("type t = int; garbage")).err(), Some(14));
    assert!(parse(&chars("proc main() { var x: int; x := 1 }")).is_err());
}
