use aiply::instruction_parser::{parse_instruction_symbols, split_segments, symbols_from_tokens};

#[test]
fn test_parse_instruction_symbols() {
    let test_cases = vec![
        ("HelloWorld FooBar", vec!["#HelloWorld", "#FooBar"]),
        ("hello_world foo_bar", vec!["#hello_world", "#foo_bar"]),
        (
            "Foo::Bar Baz::Qux::Quux",
            vec!["#Foo::Bar", "#Baz::Qux::Quux"],
        ),
        ("BTreeMap::raw_insert", vec!["#BTreeMap::raw_insert"]),
        ("BTreeMap", vec!["#BTreeMap"]),
        (
            "HelloWorld snake_case Foo::Bar",
            vec!["#HelloWorld", "#snake_case", "#Foo::Bar"],
        ),
        ("hello world", vec![]),
        ("Hello World", vec![]),
        (
            "Symbols with numbers: Hello123World snake_case_42",
            vec!["#Hello123World", "#snake_case_42"],
        ),
    ];

    for (input, expected) in test_cases {
        let result = parse_instruction_symbols(input)
            .into_iter()
            .map(|s| s.rendered())
            .collect::<Vec<_>>();
        assert_eq!(result, expected, "Failed on input: {}", input);
    }
}

#[test]
fn qualified_paths_split_into_container_and_leaf() {
    let symbols = parse_instruction_symbols("Foo::Bar Baz::Qux::Quux");
    assert_eq!(symbols.len(), 2);
    assert_eq!(symbols[0].parts, vec!["Foo".to_string(), "Bar".to_string()]);
    assert_eq!(
        symbols[1].parts,
        vec!["Baz".to_string(), "Qux".to_string(), "Quux".to_string()]
    );
    assert_eq!(symbols[1].parts.last().unwrap(), "Quux");
    assert_eq!(symbols[1].parts[..2].join("::"), "Baz::Qux");
}

#[test]
fn segments_split_at_each_separator() {
    assert_eq!(split_segments("a::b::c"), vec!["a", "b", "c"]);
    assert_eq!(split_segments("plain"), vec!["plain"]);
    assert_eq!(split_segments("Foo::"), vec!["Foo", ""]);
    assert_eq!(split_segments("a:::b"), vec!["a", ":b"]);
    assert_eq!(split_segments(""), vec![""]);
}

#[test]
fn tokens_become_symbols_in_order() {
    let tokens = vec!["x::y".to_string(), "z".to_string()];
    let symbols = symbols_from_tokens(&tokens);
    assert_eq!(symbols.len(), 2);
    assert_eq!(symbols[0].rendered(), "#x::y");
    assert_eq!(symbols[1].rendered(), "#z");
}
