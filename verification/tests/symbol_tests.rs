use match_engine::symbol::Symbols;

#[test]
fn symbols_test() {
    let mut syms = Symbols::new();
    syms.add_symbol("cu1906");
    syms.add_symbol("cu1909");
    syms.add_symbol("cu1908");
    syms.add_symbol("cu1912");
    let idx = syms.get_idx("cu1906").unwrap();
    let res = syms.get_symbol(idx);
    assert!(res.is_some(), "symbol not found");
    assert_eq!(res.unwrap().name(), "cu1906");
    let idx = syms.get_idx("cu1908").unwrap();
    let res = syms.get_symbol(idx);
    assert!(res.is_some(), "symbol not found");
    assert_eq!(res.unwrap().name(), "cu1908");
    assert!(syms.get_symbol(syms.end_idx()).is_none());
}

#[test]
fn symbols_idempotent() {
    let mut syms = Symbols::new();
    syms.add_symbol("cu1906");
    syms.add_symbol("cu1906");
    assert_eq!(syms.get_idx("cu1906"), Some(1));
    assert_eq!(syms.end_idx(), 2);
    assert!(syms.get_idx("cu1909").is_none());
}
