use aiply::symbol::{is_relevant, symbols_match};
use aiply::Symbol;

fn sym(parts: &[&str]) -> Symbol {
    Symbol { parts: parts.iter().map(|p| p.to_string()).collect() }
}

#[test]
fn ancestor_of_important_symbol_matches() {
    assert!(symbols_match(&sym(&["outer"]), &sym(&["outer", "inner", "g"])));
    assert!(symbols_match(&sym(&["outer", "inner"]), &sym(&["outer", "inner", "g"])));
    assert!(symbols_match(&sym(&["outer", "inner", "g"]), &sym(&["outer", "inner", "g"])));
}

#[test]
fn descendant_or_sibling_does_not_match() {
    assert!(!symbols_match(&sym(&["outer", "inner", "g", "x"]), &sym(&["outer", "inner", "g"])));
    assert!(!symbols_match(&sym(&["outer", "f"]), &sym(&["outer", "inner", "g"])));
    assert!(!symbols_match(&sym(&["out"]), &sym(&["outer"])));
}

#[test]
fn prefix_is_relevant_however_deep_the_entry() {
    let important = vec![sym(&["a", "b", "c", "d", "e", "f"]), sym(&["z"])];
    assert!(is_relevant(&sym(&["a"]), &important));
    assert!(is_relevant(&sym(&["a", "b", "c"]), &important));
    assert!(is_relevant(&sym(&["z"]), &important));
    assert!(!is_relevant(&sym(&["b"]), &important));
    assert!(!is_relevant(&sym(&["a"]), &vec![]));
}

#[test]
fn symbol_renders_with_marker_and_separator() {
    assert_eq!(sym(&["outer", "inner", "my_function"]).rendered(), "#outer::inner::my_function");
    assert_eq!(sym(&["x"]).rendered(), "#x");
    assert_eq!(sym(&[]).rendered(), "#");
}
