use vstd::prelude::*;
use vstd::string::*;
use vstd::utf8::encode_utf8;

use crate::collapse::{
    candidate_actions, import_blocks_spec, is_plan, plan_document, CollapsedDocument,
};
use crate::hierarchy::{
    is_nesting, matches_view, process_symbols, records_from_matches, records_spec, records_view,
    Capture, CaptureLabels, ExtractError, SymbolRecord,
};
use crate::instruction_parser::{parse_instruction_symbols, paths_of, symbol_tokens_of};
use crate::markdown_parser::{CodeChange, Instruction, ParsedLlmOutput};
use crate::span::Span;
use crate::symbol::{symbols_view, Symbol};

verus! {

#[verifier::external_type_specification]
#[verifier::external_body]
pub struct ExParser(tree_sitter::Parser);

#[verifier::external_type_specification]
#[verifier::external_body]
pub struct ExQuery(tree_sitter::Query);

/// Symbols of Rust source: modules, functions, types, traits, impls, constants
/// and macros, with the signature kept visible.
pub const RUST_SYMBOL_QUERY: &'static str = r#"
(mod_item (visibility_modifier)? @context "mod" @context name: (_) @name) @item
(function_item (visibility_modifier)? @context "fn" @context name: (_) @name parameters: (_) @context return_type: (_)? @context) @item
(function_signature_item (visibility_modifier)? @context "fn" @context name: (_) @name parameters: (_) @context return_type: (_)? @context) @item
(struct_item (visibility_modifier)? @context "struct" @context name: (_) @name) @item
(enum_item (visibility_modifier)? @context "enum" @context name: (_) @name) @item
(trait_item (visibility_modifier)? @context "trait" @context name: (_) @name) @item
(impl_item "impl" @context trait: (_)? @name "for"? @context type: (_) @name) @item
(const_item (visibility_modifier)? @context "const" @context name: (_) @name) @item
(static_item (visibility_modifier)? @context "static" @context name: (_) @name) @item
(type_item (visibility_modifier)? @context "type" @context name: (_) @name) @item
(macro_definition "macro_rules!" @context name: (_) @name) @item
"#;

/// Symbols of TypeScript source: functions, classes, methods, interfaces,
/// enums and type aliases.
pub const TYPESCRIPT_SYMBOL_QUERY: &'static str = r#"
(function_declaration "function" @context name: (_) @name parameters: (_) @context) @item
(class_declaration "class" @context name: (_) @name) @item
(abstract_class_declaration "abstract" @context "class" @context name: (_) @name) @item
(method_definition name: (_) @name parameters: (_) @context) @item
(interface_declaration "interface" @context name: (_) @name) @item
(enum_declaration "enum" @context name: (_) @name) @item
(type_alias_declaration "type" @context name: (_) @name) @item
"#;

/// Runs of adjacent `use` declarations.
pub const RUST_IMPORT_QUERY: &'static str = "(use_declaration)+ @collapse";

/// Runs of adjacent `import` statements.
pub const TYPESCRIPT_IMPORT_QUERY: &'static str = "(import_statement)+ @collapse";

/// A language whose grammar and queries the library carries.
#[derive(Clone, Copy, Debug, PartialEq, Eq, Structural)]
pub enum SourceLanguage {
    Rust,
    TypeScript,
}

/// Why a parsing context could not be set up.
#[derive(Clone, Copy, Debug, PartialEq, Eq, Structural)]
pub enum ContextError {
    /// The language name is neither `rust` nor `typescript` (`new` requires a
    /// known name).
    UnsupportedLanguage,
    /// A query did not compile against the grammar.
    QueryRejected,
}

/// The language called `name`.
pub open spec fn language_named(name: Seq<char>) -> Option<SourceLanguage> {
    if name == "rust"@ {
        Some(SourceLanguage::Rust)
    } else if name == "typescript"@ {
        Some(SourceLanguage::TypeScript)
    } else {
        None
    }
}

/// The symbol query of a language.
pub open spec fn symbol_query_source(lang: SourceLanguage) -> Seq<char> {
    match lang {
        SourceLanguage::Rust => RUST_SYMBOL_QUERY@,
        SourceLanguage::TypeScript => TYPESCRIPT_SYMBOL_QUERY@,
    }
}

/// The import query of a language.
pub open spec fn import_query_source(lang: SourceLanguage) -> Seq<char> {
    match lang {
        SourceLanguage::Rust => RUST_IMPORT_QUERY@,
        SourceLanguage::TypeScript => TYPESCRIPT_IMPORT_QUERY@,
    }
}

/// Whether the query `source` compiles against the grammar of `lang`.
pub uninterp spec fn query_compiles(lang: SourceLanguage, source: Seq<char>) -> bool;

/// The index that the query `source`, compiled against the grammar of `lang`,
/// gives the capture called `label`.
pub uninterp spec fn capture_index_of(lang: SourceLanguage, source: Seq<char>, label: Seq<char>) -> Option<
    u32,
>;

/// The matches of the query `source` over `text` parsed with the grammar of
/// `lang`: each match as its captures, each capture as its index and its node's
/// byte range. `None` when the parse does not finish, whatever the query.
pub uninterp spec fn query_matches_of(lang: SourceLanguage, source: Seq<char>, text: Seq<char>) -> Option<
    Seq<Seq<Capture>>,
>;

/// The capture indices of the `name`, `context` and `item` labels of the symbol
/// query of `lang`.
pub open spec fn symbol_labels(lang: SourceLanguage) -> CaptureLabels {
    let q = symbol_query_source(lang);
    CaptureLabels {
        name: capture_index_of(lang, q, "name"@),
        context: capture_index_of(lang, q, "context"@),
        item: capture_index_of(lang, q, "item"@),
    }
}

/// Why the symbols of `code` cannot be read, if they cannot.
pub open spec fn code_error(lang: SourceLanguage, code: Seq<char>) -> Option<ExtractError> {
    match query_matches_of(lang, symbol_query_source(lang), code) {
        None => Some(ExtractError::ParseFailed),
        Some(ms) => match records_spec(encode_utf8(code), symbol_labels(lang), ms) {
            None => Some(ExtractError::MalformedMatch),
            Some(_) => None,
        },
    }
}

/// `syms` are the qualified symbols of `code`: its records, nested, in order.
pub open spec fn code_symbols_ok(lang: SourceLanguage, code: Seq<char>, syms: Seq<Seq<Seq<char>>>) -> bool {
    match query_matches_of(lang, symbol_query_source(lang), code) {
        None => false,
        Some(ms) => match records_spec(encode_utf8(code), symbol_labels(lang), ms) {
            None => false,
            Some(recs) => exists|nested: Seq<(Seq<Seq<char>>, Span, Span)>|
                #[trigger] is_nesting(recs, nested) && syms == nested.map_values(
                    |x: (Seq<Seq<char>>, Span, Span)| x.0,
                ),
        },
    }
}

impl SourceLanguage {
    /// The language called `name` (`rust` or `typescript`).
    pub fn from_name(name: &str) -> (r: Option<SourceLanguage>)
        ensures
            r == language_named(name@),
    {
        let n = name.to_owned();
        let rust = "rust".to_owned();
        let typescript = "typescript".to_owned();
        if n == rust {
            Some(SourceLanguage::Rust)
        } else if n == typescript {
            Some(SourceLanguage::TypeScript)
        } else {
            None
        }
    }
}

/// Relies on `tree_sitter::Parser::new` and `Parser::set_language` with the
/// grammar of `tree_sitter_rust::LANGUAGE` or
/// `tree_sitter_typescript::LANGUAGE_TYPESCRIPT`. `set_language` fails only on an
/// ABI version outside 13..=14 (lib.rs:474); both grammars are version 14.
#[verifier::external_body]
fn new_parser(lang: SourceLanguage) -> tree_sitter::Parser {
    let grammar = match lang {
        SourceLanguage::Rust => tree_sitter::Language::new(tree_sitter_rust::LANGUAGE),
        SourceLanguage::TypeScript => tree_sitter::Language::new(tree_sitter_typescript::LANGUAGE_TYPESCRIPT),
    };
    let mut parser = tree_sitter::Parser::new();
    let _ = parser.set_language(&grammar);
    parser
}

/// Relies on `tree_sitter::Query::new` against the grammar of `lang`; `None`
/// when the query does not compile.
#[verifier::external_body]
fn new_query(lang: SourceLanguage, source: &str) -> (r: Option<tree_sitter::Query>)
    ensures
        r is Some <==> query_compiles(lang, source@),
{
    let grammar = match lang {
        SourceLanguage::Rust => tree_sitter::Language::new(tree_sitter_rust::LANGUAGE),
        SourceLanguage::TypeScript => tree_sitter::Language::new(tree_sitter_typescript::LANGUAGE_TYPESCRIPT),
    };
    tree_sitter::Query::new(&grammar, source).ok()
}

/// A parser for one language with its symbol query and its import query.
pub struct CodeParsingContext {
    lang: SourceLanguage,
    parser: tree_sitter::Parser,
    query: tree_sitter::Query,
    collapse_query: tree_sitter::Query,
}

impl CodeParsingContext {
    /// The language of the context: its parser holds that language's grammar,
    /// and its queries are that language's symbol and import queries.
    pub closed spec fn language(&self) -> SourceLanguage {
        self.lang
    }

    /// Relies on `tree_sitter::Query::capture_index_for_name` on the symbol
    /// query, which `new` compiled from `symbol_query_source(self.language())`.
    #[verifier::external_body]
    fn capture_index(&self, label: &str) -> (r: Option<u32>)
        ensures
            r == capture_index_of(self.language(), symbol_query_source(self.language()), label@),
    {
        self.query.capture_index_for_name(label)
    }

    /// Relies on `tree_sitter::Parser::parse` and `tree_sitter::QueryCursor::matches`
    /// over the whole tree, for the symbol query and then the import query,
    /// which `new` built for `self.language()`.
    #[verifier::external_body]
    fn run_queries(&mut self, text: &str) -> (r: Option<(Vec<Vec<Capture>>, Vec<Vec<Capture>>)>)
        ensures
            final(self).language() == old(self).language(),
            r is None ==> query_matches_of(old(self).language(), symbol_query_source(old(self).language()), text@) is None
                && query_matches_of(old(self).language(), import_query_source(old(self).language()), text@) is None,
            r matches Some((a, b)) ==> query_matches_of(old(self).language(), symbol_query_source(old(self).language()), text@)
                == Some(matches_view(a@)) && query_matches_of(old(self).language(), import_query_source(old(self).language()), text@)
                == Some(matches_view(b@)),
    {
        let tree = self.parser.parse(text, None)?;
        let mut cursor = tree_sitter::QueryCursor::new();
        let mut run = |q: &tree_sitter::Query| -> Vec<Vec<Capture>> {
            cursor.matches(q, tree.root_node(), text.as_bytes())
                .map(|m| m.captures.iter().map(|c| Capture { index: c.index, start: c.node.start_byte(), end: c.node.end_byte() }).collect())
                .collect()
        };
        let symbols = run(&self.query);
        let imports = run(&self.collapse_query);
        Some((symbols, imports))
    }

    /// A context for the language called `language`, which must be `rust` or
    /// `typescript`. It is built exactly when both of that language's queries
    /// compile.
    pub fn new(language: &str) -> (r: Result<CodeParsingContext, ContextError>)
        requires
            language_named(language@) is Some,
        ensures
            ({
                let l = language_named(language@)->Some_0;
                if query_compiles(l, symbol_query_source(l)) && query_compiles(
                    l,
                    import_query_source(l),
                ) {
                    r matches Ok(c) && c.language() == l
                } else {
                    r == Err::<CodeParsingContext, ContextError>(ContextError::QueryRejected)
                }
            }),
    {
        let lang = match SourceLanguage::from_name(language) {
            Some(l) => l,
            None => return Err(ContextError::UnsupportedLanguage),
        };
        let (symbol_source, import_source) = match lang {
            SourceLanguage::Rust => (RUST_SYMBOL_QUERY, RUST_IMPORT_QUERY),
            SourceLanguage::TypeScript => (TYPESCRIPT_SYMBOL_QUERY, TYPESCRIPT_IMPORT_QUERY),
        };
        let query = match new_query(lang, symbol_source) {
            Some(q) => q,
            None => return Err(ContextError::QueryRejected),
        };
        let collapse_query = match new_query(lang, import_source) {
            Some(q) => q,
            None => return Err(ContextError::QueryRejected),
        };
        let parser = new_parser(lang);
        Ok(CodeParsingContext { lang, parser, query, collapse_query })
    }

    /// The capture indices of the symbol query's labels.
    fn labels(&self) -> (r: CaptureLabels)
        ensures
            r == symbol_labels(self.language()),
    {
        proof {
            reveal_strlit("name");
            reveal_strlit("context");
            reveal_strlit("item");
        }
        CaptureLabels {
            name: self.capture_index("name"),
            context: self.capture_index("context"),
            item: self.capture_index("item"),
        }
    }

    /// The one-segment symbol records of `code`, in match order.
    fn extract_symbols_with_range(&mut self, code: &str) -> (r: Result<Vec<SymbolRecord>, ExtractError>)
        ensures
            final(self).language() == old(self).language(),
            match query_matches_of(old(self).language(), symbol_query_source(old(self).language()), code@) {
                None => r == Err::<Vec<SymbolRecord>, ExtractError>(ExtractError::ParseFailed),
                Some(ms) => match records_spec(code.spec_bytes(), symbol_labels(old(self).language()), ms) {
                    None => r == Err::<Vec<SymbolRecord>, ExtractError>(ExtractError::MalformedMatch),
                    Some(recs) => r is Ok && records_view(r->Ok_0@) == recs,
                },
            },
    {
        let labels = self.labels();
        let (matches, _) = match self.run_queries(code) {
            Some(found) => found,
            None => return Err(ExtractError::ParseFailed),
        };
        records_from_matches(code, labels, &matches)
    }

    /// The qualified symbols defined in `code`, each after its parent.
    pub fn parse_code_symbols(&mut self, code: &str) -> (r: Result<Vec<Symbol>, ExtractError>)
        ensures
            final(self).language() == old(self).language(),
            match code_error(old(self).language(), code@) {
                Some(e) => r == Err::<Vec<Symbol>, ExtractError>(e),
                None => r matches Ok(v) && code_symbols_ok(old(self).language(), code@, symbols_view(v@)),
            },
    {
        let records = self.extract_symbols_with_range(code)?;
        let ghost recs = records_view(records@);
        let nested = process_symbols(records);
        let mut out: Vec<Symbol> = Vec::new();
        let mut k: usize = 0;
        while k < nested.len()
            invariant
                k <= nested@.len(),
                symbols_view(out@) == records_view(nested@).map_values(
                    |x: (Seq<Seq<char>>, Span, Span)| x.0,
                ).subrange(0, k as int),
            decreases nested@.len() - k,
        {
            let sym = nested[k].symbol.duplicate();
            assert(sym@ == records_view(nested@)[k as int].0);
            let ghost before = symbols_view(out@);
            out.push(sym);
            assert(symbols_view(out@) =~= before.push(sym@));
            assert(symbols_view(out@) =~= records_view(nested@).map_values(
                |x: (Seq<Seq<char>>, Span, Span)| x.0,
            ).subrange(0, k + 1));
            k += 1;
        }
        assert(symbols_view(out@) =~= records_view(nested@).map_values(
            |x: (Seq<Seq<char>>, Span, Span)| x.0,
        ));
        assert(is_nesting(recs, records_view(nested@)));
        Ok(out)
    }

    /// Collapses `original_doc` so that only the symbols relevant to
    /// `important_symbols` and the text outside any symbol stay in full; import
    /// blocks become `use ...`.
    pub fn collapse_unrelated_symbols<'a>(&mut self, original_doc: &'a str, important_symbols: Vec<Symbol>) -> (r:
        Result<CollapsedDocument<'a>, ExtractError>)
        ensures
            final(self).language() == old(self).language(),
            ({
                let l = old(self).language();
                let bytes = original_doc.spec_bytes();
                match (
                    query_matches_of(l, symbol_query_source(l), original_doc@),
                    query_matches_of(l, import_query_source(l), original_doc@),
                ) {
                    (Some(ms), Some(ims)) => match (
                        records_spec(bytes, symbol_labels(l), ms),
                        import_blocks_spec(bytes, ims),
                    ) {
                        (Some(recs), Some(blocks)) => r matches Ok(d) && d.original() == bytes
                            && d.well_formed() && exists|nrecs: Seq<(Seq<Seq<char>>, Span, Span)>|
                            #[trigger] is_nesting(recs, nrecs) && is_plan(
                                candidate_actions(nrecs, blocks, symbols_view(important_symbols@)),
                                d.collapses(),
                            ),
                        _ => r == Err::<CollapsedDocument<'a>, ExtractError>(ExtractError::MalformedMatch),
                    },
                    _ => r == Err::<CollapsedDocument<'a>, ExtractError>(ExtractError::ParseFailed),
                }
            }),
    {
        let labels = self.labels();
        let (matches, import_matches) = match self.run_queries(original_doc) {
            Some(found) => found,
            None => return Err(ExtractError::ParseFailed),
        };
        plan_document(original_doc, labels, &matches, &import_matches, &important_symbols)
    }
}

/// The lists of a list of symbol lists, one after another.
pub open spec fn flatten(groups: Seq<Seq<Seq<Seq<char>>>>) -> Seq<Seq<Seq<char>>>
    decreases groups.len(),
{
    if groups.len() == 0 {
        seq![]
    } else {
        flatten(groups.drop_last()) + groups.last()
    }
}

/// The first error among the code blocks `codes`, if any.
pub open spec fn first_code_error(lang: SourceLanguage, codes: Seq<Seq<char>>) -> Option<ExtractError>
    decreases codes.len(),
{
    if codes.len() == 0 {
        None
    } else {
        match first_code_error(lang, codes.drop_last()) {
            Some(e) => Some(e),
            None => code_error(lang, codes.last()),
        }
    }
}

/// The symbols that instruction text `text` names.
pub open spec fn instruction_symbols(text: Seq<char>) -> Seq<Seq<Seq<char>>> {
    match symbol_tokens_of(text) {
        Some(tokens) => paths_of(tokens),
        None => seq![],
    }
}

pub open spec fn codes_of(parsed: ParsedLlmOutput) -> Seq<Seq<char>> {
    parsed.code_changes@.map_values(|c: CodeChange| c.code@)
}

pub open spec fn instruction_symbols_of(parsed: ParsedLlmOutput) -> Seq<Seq<Seq<Seq<char>>>> {
    parsed.instructions@.map_values(|i: Instruction| instruction_symbols(i.text@))
}

/// The symbols that a reply makes important: those defined in its code
/// blocks, in order, then those named in its prose. Fails with the error of
/// the first code block whose symbols cannot be read.
pub fn important_symbols(context: &mut CodeParsingContext, parsed: &ParsedLlmOutput) -> (r: Result<
    Vec<Symbol>,
    ExtractError,
>)
    ensures
        final(context).language() == old(context).language(),
        match first_code_error(old(context).language(), codes_of(*parsed)) {
            Some(e) => r == Err::<Vec<Symbol>, ExtractError>(e),
            None => r matches Ok(v) && exists|groups: Seq<Seq<Seq<Seq<char>>>>|
                {
                    &&& groups.len() == parsed.code_changes@.len()
                    &&& forall|k: int|
                        0 <= k < groups.len() ==> code_symbols_ok(
                            old(context).language(),
                            codes_of(*parsed)[k],
                            #[trigger] groups[k],
                        )
                    &&& symbols_view(v@) == flatten(groups) + flatten(instruction_symbols_of(*parsed))
                },
        },
{
    let ghost lang = context.language();
    let ghost codes = codes_of(*parsed);
    let mut out: Vec<Symbol> = Vec::new();
    let ghost mut groups: Seq<Seq<Seq<Seq<char>>>> = seq![];
    let mut k: usize = 0;
    while k < parsed.code_changes.len()
        invariant
            k <= parsed.code_changes@.len(),
            context.language() == lang,
            lang == old(context).language(),
            codes == codes_of(*parsed),
            first_code_error(lang, codes.subrange(0, k as int)) is None,
            groups.len() == k,
            forall|j: int| 0 <= j < k ==> code_symbols_ok(lang, codes[j], #[trigger] groups[j]),
            symbols_view(out@) == flatten(groups),
        decreases parsed.code_changes@.len() - k,
    {
        assert(codes.subrange(0, k + 1).drop_last() =~= codes.subrange(0, k as int));
        assert(codes[k as int] == parsed.code_changes@[k as int].code@);
        match context.parse_code_symbols(parsed.code_changes[k].code.as_str()) {
            Err(e) => {
                proof {
                    assert(first_code_error(lang, codes.subrange(0, k + 1)) == Some(e));
                    lemma_first_error_extends(lang, codes, k + 1, codes.len() as int);
                    assert(codes.subrange(0, codes.len() as int) =~= codes);
                    assert(first_code_error(lang, codes) == Some(e));
                    assert(context.language() == lang);
                }
                return Err(e);
            },
            Ok(mut syms) => {
                let ghost g = symbols_view(syms@);
                let ghost before = symbols_view(out@);
                out.append(&mut syms);
                assert(symbols_view(out@) =~= before + g);
                proof {
                    let old_groups = groups;
                    groups = groups.push(g);
                    assert(groups.drop_last() =~= old_groups);
                    assert forall|j: int| 0 <= j < k + 1 implies code_symbols_ok(lang, codes[j], #[trigger] groups[j]) by {
                        if j < k {
                            assert(groups[j] == old_groups[j]);
                        }
                    }
                }
            },
        }
        k += 1;
    }
    assert(codes.subrange(0, codes.len() as int) =~= codes);
    let ghost code_part = symbols_view(out@);
    let ghost instr = instruction_symbols_of(*parsed);
    let mut i: usize = 0;
    while i < parsed.instructions.len()
        invariant
            i <= parsed.instructions@.len(),
            instr == instruction_symbols_of(*parsed),
            context.language() == old(context).language(),
            symbols_view(out@) == code_part + flatten(instr.subrange(0, i as int)),
        decreases parsed.instructions@.len() - i,
    {
        assert(instr.subrange(0, i + 1).drop_last() =~= instr.subrange(0, i as int));
        let mut syms = parse_instruction_symbols(parsed.instructions[i].text.as_str());
        assert(symbols_view(syms@) == instr[i as int]);
        assert(instr.subrange(0, i + 1).last() == instr[i as int]);
        assert(flatten(instr.subrange(0, i + 1)) == flatten(instr.subrange(0, i as int)) + instr[i as int]);
        let ghost before = symbols_view(out@);
        let ghost g = symbols_view(syms@);
        out.append(&mut syms);
        assert(symbols_view(out@) =~= before + g);
        assert(symbols_view(out@) =~= code_part + flatten(instr.subrange(0, i + 1)));
        i += 1;
    }
    assert(instr.subrange(0, instr.len() as int) =~= instr);
    Ok(out)
}

proof fn lemma_first_error_extends(lang: SourceLanguage, codes: Seq<Seq<char>>, k: int, j: int)
    requires
        0 <= k <= j <= codes.len(),
        first_code_error(lang, codes.subrange(0, k)) is Some,
    ensures
        first_code_error(lang, codes.subrange(0, j)) == first_code_error(lang, codes.subrange(0, k)),
    decreases j - k,
{
    if j > k {
        lemma_first_error_extends(lang, codes, k, j - 1);
        assert(codes.subrange(0, j).drop_last() =~= codes.subrange(0, j - 1));
    }
}

} // verus!
