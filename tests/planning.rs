use aiply::collapse::{merge_collapses, plan_collapses, plan_document};
use aiply::hierarchy::{process_symbols, records_from_matches};
use aiply::sort::sort_order;
use aiply::{
    Capture, CaptureLabels, Collapse, CollapseReplacement, CollapsedDocument, ExtractError, Span,
    Symbol, SymbolRecord,
};

fn span(start: usize, end: usize) -> Span {
    Span { start, end }
}

fn sym(parts: &[&str]) -> Symbol {
    Symbol { parts: parts.iter().map(|p| p.to_string()).collect() }
}

fn record(name: &str, item: (usize, usize), summary: (usize, usize)) -> SymbolRecord {
    SymbolRecord { symbol: sym(&[name]), item_span: span(item.0, item.1), summary_span: span(summary.0, summary.1) }
}

fn imports(start: usize, end: usize) -> Collapse {
    Collapse { replacement: CollapseReplacement::Imports, target: span(start, end) }
}

fn summary(target: (usize, usize), shown: (usize, usize)) -> Collapse {
    Collapse {
        replacement: CollapseReplacement::Range(span(shown.0, shown.1)),
        target: span(target.0, target.1),
    }
}

const LABELS: CaptureLabels = CaptureLabels { name: Some(0), context: Some(1), item: Some(2) };

fn cap(index: u32, start: usize, end: usize) -> Capture {
    Capture { index, start, end }
}

#[test]
fn sort_is_stable_and_lexicographic() {
    let keys = vec![(3, 0), (1, 5), (1, 2), (3, 0), (0, 9)];
    assert_eq!(sort_order(&keys), vec![4, 2, 1, 0, 3]);
    assert_eq!(sort_order(&vec![]), Vec::<usize>::new());
}

#[test]
fn merge_joins_overlapping_and_touching_targets() {
    let merged = merge_collapses(&vec![
        summary((0, 10), (0, 4)),
        summary((2, 5), (2, 3)),
        imports(10, 12),
        imports(13, 15),
    ]);
    assert_eq!(merged, vec![summary((0, 12), (0, 4)), imports(13, 15)]);
}

#[test]
fn merging_twice_changes_nothing() {
    let once = merge_collapses(&vec![
        imports(0, 3),
        summary((2, 8), (2, 4)),
        summary((8, 9), (8, 9)),
        summary((20, 30), (20, 25)),
        summary((21, 22), (21, 22)),
    ]);
    let twice = merge_collapses(&once);
    assert_eq!(once, vec![imports(0, 9), summary((20, 30), (20, 25))]);
    assert_eq!(twice, once);
}

#[test]
fn plan_sorts_imports_and_irrelevant_symbols() {
    let records = vec![
        record("b", (30, 50), (30, 36)),
        record("a", (10, 20), (10, 15)),
        record("keep", (60, 70), (60, 64)),
        record("bare", (80, 84), (80, 84)),
    ];
    let blocks = vec![span(0, 8), span(9, 9)];
    let plan = plan_collapses(&records, &blocks, &vec![sym(&["keep"])]);
    assert_eq!(
        plan,
        vec![imports(0, 8), summary((10, 20), (10, 15)), summary((30, 50), (30, 36))]
    );
}

#[test]
fn matches_without_name_are_skipped() {
    let text = "fn f() {}";
    let matches = vec![
        vec![cap(1, 0, 2), cap(0, 3, 4), cap(1, 4, 6), cap(2, 0, 9)],
        vec![cap(2, 0, 9)],
        vec![cap(7, 0, 1)],
    ];
    let records = records_from_matches(text, LABELS, &matches).unwrap();
    assert_eq!(records.len(), 1);
    assert_eq!(records[0].symbol.rendered(), "#f");
    assert_eq!(records[0].item_span, span(0, 9));
    assert_eq!(records[0].summary_span, span(0, 6));
}

#[test]
fn malformed_named_match_is_an_error() {
    let text = "fn f() {}";
    let no_item = vec![vec![cap(0, 3, 4)]];
    assert!(matches!(records_from_matches(text, LABELS, &no_item), Err(ExtractError::MalformedMatch)));
    let outside = vec![vec![cap(0, 3, 4), cap(2, 0, 40)]];
    assert!(matches!(records_from_matches(text, LABELS, &outside), Err(ExtractError::MalformedMatch)));
    let summary_outside_item = vec![vec![cap(1, 0, 2), cap(0, 3, 4), cap(2, 3, 9)]];
    assert!(matches!(
        records_from_matches(text, LABELS, &summary_outside_item),
        Err(ExtractError::MalformedMatch)
    ));
    let split_char = "é x";
    let mid_char = vec![vec![cap(0, 1, 2), cap(2, 0, 4)]];
    assert!(matches!(records_from_matches(split_char, LABELS, &mid_char), Err(ExtractError::MalformedMatch)));
}

#[test]
fn nesting_follows_containment() {
    let records = vec![
        record("g", (30, 40), (30, 34)),
        record("outer", (0, 50), (0, 9)),
        record("f", (12, 20), (12, 16)),
        record("inner", (22, 45), (22, 31)),
        record("after", (50, 60), (50, 55)),
    ];
    let nested = process_symbols(records);
    let names: Vec<String> = nested.iter().map(|r| r.symbol.rendered()).collect();
    assert_eq!(names, vec!["#outer", "#outer::f", "#outer::inner", "#outer::inner::g", "#after"]);
    assert_eq!(nested[3].item_span, span(30, 40));
}

#[test]
fn identical_spans_nest_in_input_order() {
    let records = vec![record("first", (0, 10), (0, 5)), record("second", (0, 10), (0, 5))];
    let nested = process_symbols(records);
    let names: Vec<String> = nested.iter().map(|r| r.symbol.rendered()).collect();
    assert_eq!(names, vec!["#first", "#first::second"]);
}

#[test]
fn document_rejects_unsorted_or_unsound_collapses() {
    let text = "abcdefghij";
    assert!(CollapsedDocument::new(text, vec![imports(0, 2), imports(2, 4)]).is_none());
    assert!(CollapsedDocument::new(text, vec![imports(4, 6), imports(0, 2)]).is_none());
    assert!(CollapsedDocument::new(text, vec![imports(0, 20)]).is_none());
    assert!(CollapsedDocument::new(text, vec![summary((0, 4), (3, 30))]).is_none());
    assert!(CollapsedDocument::new(text, vec![imports(0, 2), summary((4, 8), (4, 5))]).is_some());
}

#[test]
fn rendering_substitutes_placeholders() {
    let text = "use a;\nfn f() { body }\nrest\n";
    let doc = CollapsedDocument::new(text, vec![imports(0, 6), summary((7, 22), (7, 13))]).unwrap();
    assert_eq!(doc.collapsed_document(), "use ...\nfn f() ...\nrest\n");
    let empty = CollapsedDocument::new(text, vec![]).unwrap();
    assert_eq!(empty.collapsed_document(), text);
}

#[test]
fn reconciling_trims_and_keeps_indentation() {
    let text = "  fn f() { body }\n";
    let doc = CollapsedDocument::new(text, vec![summary((2, 17), (2, 8))]).unwrap();
    assert_eq!(doc.collapsed_document(), "  fn f() ...\n");
    assert_eq!(doc.uncollapse_document("\t fn f()   ...\r\nx").unwrap(), "\t fn f() { body }\nx");
    assert_eq!(doc.uncollapse_document("  fn f() ...\n").unwrap(), text);
    assert_eq!(doc.uncollapse_document("").unwrap(), "");
}

#[test]
fn planned_document_from_query_results() {
    let text = "use a;\nfn f() { body }\n";
    let symbol_matches = vec![vec![cap(1, 7, 9), cap(0, 10, 11), cap(1, 11, 13), cap(2, 7, 22)]];
    let import_matches = vec![vec![cap(0, 0, 6)]];
    let doc = plan_document(text, LABELS, &symbol_matches, &import_matches, &vec![]).unwrap();
    assert_eq!(doc.collapsed_document(), "use ...\nfn f() ...\n");
    let kept = plan_document(text, LABELS, &symbol_matches, &vec![], &vec![sym(&["f"])]).unwrap();
    assert_eq!(kept.collapsed_document(), text);
    let bad_imports = vec![vec![cap(0, 0, 60)]];
    assert!(matches!(
        plan_document(text, LABELS, &symbol_matches, &bad_imports, &vec![]),
        Err(ExtractError::MalformedMatch)
    ));
}
