use aiply::markdown_parser::{MarkdownEvent, ParsedLlmOutput};
use aiply::prompt::{build_prompt, strip_code_fence};

#[test]
fn reply_splits_into_instructions_and_code() {
    let parsed = ParsedLlmOutput::parse(
        "Add a method `norm` to Point.\nIt returns the length.\n\n```rust\nimpl Point {\n    fn norm(&self) {}\n}\n```\n\nThen update main.\n",
    );
    let instructions: Vec<&str> = parsed.instructions.iter().map(|i| i.text.as_str()).collect();
    assert_eq!(
        instructions,
        vec!["Add a method `norm` to Point.\nIt returns the length.", "Then update main."]
    );
    assert_eq!(parsed.code_changes.len(), 1);
    assert_eq!(parsed.code_changes[0].language, "rust");
    assert_eq!(parsed.code_changes[0].code, "impl Point {\n    fn norm(&self) {}\n}\n");
}

#[test]
fn events_gather_prose_until_a_block_ends() {
    let events = vec![
        MarkdownEvent::Text("  change ".to_string()),
        MarkdownEvent::Code("f".to_string()),
        MarkdownEvent::LineBreak,
        MarkdownEvent::StartCodeBlock("ts".to_string()),
        MarkdownEvent::Text("let x = 1;".to_string()),
        MarkdownEvent::LineBreak,
        MarkdownEvent::Code("ignored".to_string()),
        MarkdownEvent::EndCodeBlock,
        MarkdownEvent::Other,
        MarkdownEvent::Text("tail".to_string()),
    ];
    let parsed = ParsedLlmOutput::from_events(&events);
    let instructions: Vec<&str> = parsed.instructions.iter().map(|i| i.text.as_str()).collect();
    assert_eq!(instructions, vec!["change `f`", "tail"]);
    assert_eq!(parsed.code_changes.len(), 1);
    assert_eq!(parsed.code_changes[0].language, "ts");
    assert_eq!(parsed.code_changes[0].code, "let x = 1;");
}

#[test]
fn empty_reply_has_nothing() {
    let parsed = ParsedLlmOutput::from_events(&vec![MarkdownEvent::EndParagraph]);
    assert!(parsed.instructions.is_empty());
    assert!(parsed.code_changes.is_empty());
}

#[test]
fn prompt_embeds_document_and_edits() {
    assert_eq!(
        build_prompt("rust", "fn f() ...", "rename f"),
        "Given the following file structure:\n\n```rust\nfn f() ...\n```\n\nMake the follow edits:\nrename f"
    );
}

#[test]
fn code_fence_is_stripped() {
    assert_eq!(strip_code_fence("```rust\nfn f() {}\n```"), "fn f() {}");
    assert_eq!(strip_code_fence("```rust\nfn f() {}\n```\n```"), "fn f() {}");
    assert_eq!(strip_code_fence("fn f() {}"), "fn f() {}");
    assert_eq!(strip_code_fence("```fn f() {}"), "fn f() {}");
    assert_eq!(strip_code_fence(""), "");
}
