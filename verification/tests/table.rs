use bad_racket::table::VarTable;

#[test]
fn new_table_is_empty() {
    let t = VarTable::new();
    assert!(!t.contains_key("x"));
    assert_eq!(t.get("x"), None);
}

#[test]
fn insert_then_get() {
    let mut t = VarTable::new();
    t.insert(String::from("x"), String::from("5"));
    assert!(t.contains_key("x"));
    assert_eq!(t.get("x"), Some(&String::from("5")));
    assert_eq!(t.get("y"), None);
}

#[test]
fn later_definition_replaces_earlier() {
    let mut t = VarTable::new();
    t.insert(String::from("x"), String::from("5"));
    t.insert(String::from("y"), String::from("6"));
    t.insert(String::from("x"), String::from("7"));
    assert_eq!(t.get("x"), Some(&String::from("7")));
    assert_eq!(t.get("y"), Some(&String::from("6")));
}

#[test]
fn duplicate_is_independent() {
    let mut t = VarTable::new();
    t.insert(String::from("x"), String::from("5"));
    let mut d = t.duplicate();
    assert_eq!(d.get("x"), Some(&String::from("5")));
    d.insert(String::from("x"), String::from("9"));
    assert_eq!(t.get("x"), Some(&String::from("5")));
    assert_eq!(d.get("x"), Some(&String::from("9")));
}
