use linecalc::{EvalError, Location, SymbolTable};

#[test]
fn lookup_of_unknown_name_fails() {
    let table: SymbolTable<f64> = SymbolTable::new();
    assert_eq!(
        table.lookup(&String::from("hello"), Location(2, 7)),
        Err(EvalError::SymbolNotFound(String::from("hello"), Location(2, 7)))
    );
    assert_eq!(table.get(&String::from("hello")), None);
}

#[test]
fn assignment_is_seen_by_later_lookups() {
    let mut table: SymbolTable<f64> = SymbolTable::new();
    table.insert(String::from("PI"), std::f64::consts::PI);
    table.insert(String::from("hello"), 5.0);
    let hello = table.lookup(&String::from("hello"), Location(1, 6)).unwrap();
    assert!((2.3 + hello - 7.3).abs() <= f64::EPSILON);
    assert_eq!(table.get(&String::from("PI")), Some(std::f64::consts::PI));
}

#[test]
fn assignment_replaces_the_old_value() {
    let mut table: SymbolTable<i64> = SymbolTable::new();
    table.insert(String::from("x"), 1);
    table.insert(String::from("y"), 2);
    table.insert(String::from("x"), 3);
    assert_eq!(table.get(&String::from("x")), Some(3));
    assert_eq!(table.get(&String::from("y")), Some(2));
    assert_eq!(table.lookup(&String::from("z"), Location(0, 0)), Err(EvalError::SymbolNotFound(String::from("z"), Location(0, 0))));
}
