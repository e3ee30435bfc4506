use spl_compiler::absyn::{Expression, Program};
use spl_compiler::semant::build_symbol_table;

#[test]
fn empty_program_has_builtins() {
    let p = Program { definitions: vec![] };
    let t = build_symbol_table(&p).unwrap();
    assert_eq!(t.entries.len(), 11);
    assert!(Expression::IntLiteral(3).is_variable() == false);
}

fn chars(s: &str) -> Vec<char> {
    s.chars().collect()
}

#[test]
fn errors_name_the_symbol() {
    let p = spl_compiler::parser::parse(&chars("type a = int; type a = int;")).unwrap();
    let e = build_symbol_table(&p).unwrap_err();
    assert_eq!(e.msg, "Symbol a already defined");
    let p = spl_compiler::parser::parse(&chars("type a = b;")).unwrap();
    let e = build_symbol_table(&p).unwrap_err();
    assert_eq!(e.msg, "Type b not found");
    let p = spl_compiler::parser::parse(&chars("proc p() {} type a = p;")).unwrap();
    let e = build_symbol_table(&p).unwrap_err();
    assert_eq!(e.msg, "p is not a type");
    let p = spl_compiler::parser::parse(&chars("proc main() { var x: int; var x: int; }")).unwrap();
    let e = build_symbol_table(&p).unwrap_err();
    assert_eq!(e.msg, "Symbol x already defined");
}
