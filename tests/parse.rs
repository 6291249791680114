use minilisp::parse::{ParseError, Parser, SExp};
use minilisp::symtable::SymTable;

fn parse_sexp(text: &str) -> Result<SExp, ParseError> {
    let st = SymTable::new();
    let mut p = Parser::new(st, text);
    p.sexp()
}

#[test]
fn num() {
    let r = parse_sexp("1234").unwrap();
    if let SExp::Num(v) = r {
        assert_eq!(1234, v);
    } else {
        panic!("Expected SExp::Num, got {:?}", r);
    }
}

#[test]
fn overflow_num() {
    let r = parse_sexp("4294967296");
    if r.is_ok() {
        panic!("Expected failure parsing number larger than i32, got {:?}", r);
    }
}

#[test]
fn largest_num_parses() {
    assert_eq!(SExp::Num(2147483647), parse_sexp("2147483647").unwrap());
}

#[test]
fn just_past_largest_num_fails() {
    assert!(parse_sexp("2147483648").is_err());
}

#[test]
fn zero_parses() {
    assert_eq!(SExp::Num(0), parse_sexp("0").unwrap());
}

#[test]
fn num_stops_at_non_digit() {
    assert_eq!(SExp::Num(12), parse_sexp("12)").unwrap());
}

#[test]
fn string_with_escapes() {
    let r = parse_sexp("\"a\\n\\t\\r\\\"\\\\b\"").unwrap();
    assert_eq!(SExp::LString("a\n\t\r\"\\b".to_string()), r);
}

#[test]
fn string_bad_escape_fails() {
    assert!(parse_sexp("\"a\\qb\"").is_err());
}

#[test]
fn string_unterminated_fails() {
    assert!(parse_sexp("\"abc").is_err());
    assert!(parse_sexp("\"abc\\").is_err());
}

#[test]
fn symbol_is_interned() {
    let mut st = SymTable::new();
    let foo = st.sym_for("foo");
    let mut p = Parser::new(st, "foo");
    assert_eq!(SExp::Sym(foo), p.sexp().unwrap());
}

#[test]
fn symbol_stops_at_non_letter() {
    let st = SymTable::new();
    let mut p = Parser::new(st, "ab(");
    let r = p.sexp().unwrap();
    let mut st = p.into_table();
    assert_eq!(SExp::Sym(st.sym_for("ab")), r);
}

#[test]
fn list_with_blanks_and_comments() {
    let st = SymTable::new();
    let mut p = Parser::new(st, "( plus ; a comment\n\t1 \"x\" (b) )");
    let r = p.sexp().unwrap();
    let mut st = p.into_table();
    let expected = SExp::List(std::rc::Rc::new(vec![
        SExp::Sym(st.sym_for("plus")),
        SExp::Num(1),
        SExp::LString("x".to_string()),
        SExp::List(std::rc::Rc::new(vec![SExp::Sym(st.sym_for("b"))])),
    ]));
    assert_eq!(expected, r);
}

#[test]
fn unterminated_list_fails() {
    assert!(parse_sexp("(a b").is_err());
}

#[test]
fn unexpected_character_fails() {
    assert!(parse_sexp("#").is_err());
    assert!(parse_sexp("Abc").is_err());
    assert!(parse_sexp("").is_err());
}

#[test]
fn compilation_unit_reads_one_outer_list() {
    let st = SymTable::new();
    let mut p = Parser::new(st, "  ; leading comment\n((a) 1)");
    match p.compilation_unit().unwrap() {
        SExp::List(l) => assert_eq!(2, l.len()),
        other => panic!("expected a list, got {:?}", other),
    }
}

#[test]
fn compilation_unit_refuses_bare_atom() {
    let st = SymTable::new();
    let mut p = Parser::new(st, "42");
    assert!(p.compilation_unit().is_err());
}
