use minilisp::symtable::SymTable;

#[test]
fn it_works() {
    let mut st = SymTable::new();
    let foo = st.sym_for("foo");
    let bar = st.sym_for("bar");
    assert_eq!(foo, st.sym_for("foo"));
    assert_eq!(bar, st.sym_for("bar"));
    assert_ne!(foo, st.sym_for("bar"));

    let mut st2 = SymTable::new();
    assert_ne!(foo, st2.sym_for("foo"));
}

#[test]
fn insert_reports_new_names_only() {
    let mut st = SymTable::new();
    let x = st.insert("x");
    assert!(x.is_some());
    assert!(st.insert("x").is_none());
    assert_eq!(x.unwrap(), st.sym_for("x"));
}

#[test]
fn sym_for_is_stable_across_many_names() {
    let mut st = SymTable::new();
    let a = st.sym_for("a");
    let b = st.sym_for("b");
    let c = st.sym_for("c");
    assert_eq!(a, st.sym_for("a"));
    assert_eq!(b, st.sym_for("b"));
    assert_eq!(c, st.sym_for("c"));
    assert_ne!(a, b);
    assert_ne!(b, c);
}

#[test]
fn tables_with_distinct_tags_never_share_symbols() {
    let mut a = SymTable::with_tag(1);
    let mut b = SymTable::with_tag(2);
    let x = a.sym_for("x");
    assert_ne!(x, b.sym_for("x"));
    assert_eq!(x, a.sym_for("x"));
}
