use aiply::markdown_parser::ParsedLlmOutput;
use aiply::parsing::important_symbols;
use aiply::{CodeParsingContext, ReconcileError, SourceLanguage, Symbol};

fn sym(parts: &[&str]) -> Symbol {
    Symbol { parts: parts.iter().map(|p| p.to_string()).collect() }
}

fn rendered(symbols: &[Symbol]) -> Vec<String> {
    symbols.iter().map(|s| s.rendered()).collect()
}

#[test]
fn test_parse_code_symbols_empty() {
    let mut context = CodeParsingContext::new("rust").unwrap();
    let symbols = context.parse_code_symbols("").unwrap();
    assert_eq!(symbols.len(), 0);
}

#[test]
fn unknown_language_is_refused() {
    assert_eq!(SourceLanguage::from_name("python"), None);
    assert_eq!(SourceLanguage::from_name("rust"), Some(SourceLanguage::Rust));
    assert_eq!(SourceLanguage::from_name("typescript"), Some(SourceLanguage::TypeScript));
    assert_eq!(SourceLanguage::from_name("Rust"), None);
}

#[test]
fn typescript_context_builds() {
    let mut context = CodeParsingContext::new("typescript").unwrap();
    let symbols = context
        .parse_code_symbols("class Shape {\n  area(): number { return 0; }\n}\nfunction draw(s: Shape) {}\n")
        .unwrap();
    assert_eq!(rendered(&symbols), vec!["#Shape", "#Shape::area", "#draw"]);
}

#[test]
fn nested_modules_give_qualified_symbols() {
    let mut context = CodeParsingContext::new("rust").unwrap();
    let symbols = context
        .parse_code_symbols("mod outer { fn f() {} mod inner { fn g() {} } }")
        .unwrap();
    assert_eq!(
        rendered(&symbols),
        vec!["#outer", "#outer::f", "#outer::inner", "#outer::inner::g"]
    );
}

#[test]
fn impl_methods_nest_under_the_type() {
    let mut context = CodeParsingContext::new("rust").unwrap();
    let symbols = context
        .parse_code_symbols("struct Point { x: i32 }\nimpl Point {\n    pub fn norm(&self) -> i32 { self.x }\n}\n")
        .unwrap();
    assert_eq!(rendered(&symbols), vec!["#Point", "#Point", "#Point::norm"]);
}

#[test]
fn collapsing_keeps_ancestors_of_important_symbol() {
    let mut context = CodeParsingContext::new("rust").unwrap();
    let source = "mod outer { fn f() {} mod inner { fn g() {} } }";
    let doc = context
        .collapse_unrelated_symbols(source, vec![sym(&["outer", "inner", "g"])])
        .unwrap();
    assert_eq!(
        doc.collapsed_document(),
        "mod outer { fn f() ... mod inner { fn g() {} } }"
    );
}

#[test]
fn collapsing_with_nothing_important_keeps_signatures() {
    let mut context = CodeParsingContext::new("rust").unwrap();
    let source = "fn a() {\n    1;\n}\n\nfn b(x: u8) -> u8 {\n    x\n}\n";
    let doc = context.collapse_unrelated_symbols(source, vec![]).unwrap();
    assert_eq!(doc.collapsed_document(), "fn a() ...\n\nfn b(x: u8) -> u8 ...\n");
}

const ROUND_TRIP_SOURCE: &str = "use std::fmt;
use std::io;

mod outer {
    fn f() {
        let x = 1;
    }

    mod inner {
        pub fn g(a: u32) -> u32 {
            a + 1
        }
    }
}
";

#[test]
fn imports_collapse_to_fixed_placeholder() {
    let mut context = CodeParsingContext::new("rust").unwrap();
    let doc = context
        .collapse_unrelated_symbols(ROUND_TRIP_SOURCE, vec![sym(&["outer", "inner", "g"])])
        .unwrap();
    let collapsed = doc.collapsed_document();
    assert!(collapsed.starts_with("use ...\n"));
    assert!(!collapsed.contains("std::io"));
    assert!(collapsed.contains("    fn f() ...\n"));
    assert!(collapsed.contains("a + 1"));
}

#[test]
fn uncollapsing_the_unedited_text_restores_the_source() {
    let mut context = CodeParsingContext::new("rust").unwrap();
    for important in [vec![sym(&["outer", "inner", "g"])], vec![], vec![sym(&["outer"])]] {
        let doc = context.collapse_unrelated_symbols(ROUND_TRIP_SOURCE, important).unwrap();
        let collapsed = doc.collapsed_document();
        assert_eq!(doc.uncollapse_document(&collapsed).unwrap(), ROUND_TRIP_SOURCE);
    }
}

#[test]
fn uncollapsing_an_edit_splices_original_bodies() {
    let mut context = CodeParsingContext::new("rust").unwrap();
    let doc = context
        .collapse_unrelated_symbols(ROUND_TRIP_SOURCE, vec![sym(&["outer", "inner", "g"])])
        .unwrap();
    let edited = "use ...\nuse std::mem;\n\nmod outer {\n    fn f() ...\n\n    mod inner {\n        pub fn g(a: u32) -> u32 {\n            a + 2\n        }\n    }\n}";
    let full = doc.uncollapse_document(edited).unwrap();
    assert_eq!(
        full,
        "use std::fmt;\nuse std::io;\nuse std::mem;\n\nmod outer {\n    fn f() {\n        let x = 1;\n    }\n\n    mod inner {\n        pub fn g(a: u32) -> u32 {\n            a + 2\n        }\n    }\n}"
    );
}

#[test]
fn source_without_final_line_feed_round_trips() {
    let mut context = CodeParsingContext::new("rust").unwrap();
    let source = "fn a() {\n    1;\n}\n\nfn b() {\n    2;\n}";
    let doc = context.collapse_unrelated_symbols(source, vec![]).unwrap();
    let collapsed = doc.collapsed_document();
    assert_eq!(collapsed, "fn a() ...\n\nfn b() ...");
    assert_eq!(doc.uncollapse_document(&collapsed).unwrap(), source);
}

#[test]
fn unknown_placeholder_line_is_an_error() {
    let mut context = CodeParsingContext::new("rust").unwrap();
    let doc = context
        .collapse_unrelated_symbols(ROUND_TRIP_SOURCE, vec![sym(&["outer", "inner", "g"])])
        .unwrap();
    let edited = "use ...\n\nmod outer {\n    fn renamed() ...\n}\n";
    match doc.uncollapse_document(edited) {
        Err(ReconcileError::UnmatchedPlaceholder { line }) => assert_eq!(line, "    fn renamed() "),
        Ok(text) => panic!("unexpected success: {text}"),
    }
}

#[test]
fn a_placeholder_is_restored_at_most_once() {
    let mut context = CodeParsingContext::new("rust").unwrap();
    let doc = context
        .collapse_unrelated_symbols(ROUND_TRIP_SOURCE, vec![sym(&["outer", "inner", "g"])])
        .unwrap();
    let edited = "mod outer {\n    fn f() ...\n    fn f() ...\n}\n";
    match doc.uncollapse_document(edited) {
        Err(ReconcileError::UnmatchedPlaceholder { line }) => assert_eq!(line, "    fn f() "),
        Ok(text) => panic!("unexpected success: {text}"),
    }
}

#[test]
fn reply_symbols_come_from_code_then_prose() {
    let mut context = CodeParsingContext::new("rust").unwrap();
    let parsed = ParsedLlmOutput::parse(
        "Change outer::inner::g and HelloWorld.\n\n```rust\nmod outer { fn f() {} }\n```\n",
    );
    let symbols = important_symbols(&mut context, &parsed).unwrap();
    assert_eq!(
        rendered(&symbols),
        vec!["#outer", "#outer::f", "#outer::inner::g", "#HelloWorld"]
    );
}
