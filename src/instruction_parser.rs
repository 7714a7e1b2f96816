use vstd::prelude::*;
use vstd::string::*;

use crate::symbol::{symbols_view, Symbol};

verus! {

broadcast use vstd::string::group_string_axioms;

/// Identifier-like tokens of prose: snake_case names with at least one `_`,
/// CamelCase names with at least two capitalised words, and either kind
/// followed by `::`-separated segments.
pub const SYMBOL_PATTERN: &'static str = r#"(?x)
    \b(?:
        [a-z0-9]+(?:(?:::[a-z0-9_A-Z]*|_[a-z0-9]+))+
       |
        [A-Z][a-z0-9]*(?:(?:::[a-z0-9_A-Z]*|[A-Z][a-z0-9]*))+
      )
    \b
"#;

/// The text of each successive non-overlapping match of `SYMBOL_PATTERN` in
/// `text`; `None` when the pattern does not compile, whatever the text.
pub uninterp spec fn symbol_tokens_of(text: Seq<char>) -> Option<Seq<Seq<char>>>;

pub open spec fn tokens_view(tokens: Option<Vec<String>>) -> Option<Seq<Seq<char>>> {
    match tokens {
        Some(v) => Some(v@.map_values(|t: String| t@)),
        None => None,
    }
}

/// Relies on `regex::Regex::new` for `SYMBOL_PATTERN` and `regex::Regex::find_iter`
/// over `text`: the text of each match.
#[verifier::external_body]
fn symbol_tokens(text: &str) -> (r: Option<Vec<String>>)
    ensures
        tokens_view(r) == symbol_tokens_of(text@),
{
    let re = regex::Regex::new(SYMBOL_PATTERN).ok()?;
    Some(re.find_iter(text).map(|m| m.as_str().to_string()).collect())
}

/// A `::` separator starts at position `i` of `s`.
pub open spec fn separator_at(s: Seq<char>, i: int) -> bool {
    0 <= i && i + 1 < s.len() && s[i] == ':' && s[i + 1] == ':'
}

/// The first `::` separator of `s` starts at `i`.
pub open spec fn first_separator(s: Seq<char>, i: int) -> bool {
    &&& separator_at(s, i)
    &&& forall|j: int| 0 <= j < i ==> !separator_at(s, j)
}

/// The segments of a path, split at each `::` from left to right.
pub open spec fn split_path(s: Seq<char>) -> Seq<Seq<char>>
    decreases s.len(),
{
    if exists|i: int| first_separator(s, i) {
        let i = choose|i: int| first_separator(s, i);
        seq![s.subrange(0, i)] + split_path(s.subrange(i + 2, s.len() as int))
    } else {
        seq![s]
    }
}

proof fn lemma_split_step(s: Seq<char>, start: int, i: int)
    requires
        0 <= start <= i,
        separator_at(s, i),
        forall|j: int| start <= j < i ==> !separator_at(s, j),
    ensures
        split_path(s.subrange(start, s.len() as int)) == seq![s.subrange(start, i)] + split_path(
            s.subrange(i + 2, s.len() as int),
        ),
{
    let sub = s.subrange(start, s.len() as int);
    let k = i - start;
    assert(first_separator(sub, k)) by {
        assert forall|j: int| 0 <= j < k implies !separator_at(sub, j) by {
            assert(!separator_at(s, j + start));
        }
    }
    assert forall|j: int| first_separator(sub, j) implies j == k by {
        if j < k {
            assert(separator_at(s, j + start));
        } else if j > k {
        }
    }
    assert(sub.subrange(0, k) =~= s.subrange(start, i));
    assert(sub.subrange(k + 2, sub.len() as int) =~= s.subrange(i + 2, s.len() as int));
}

proof fn lemma_split_last(s: Seq<char>, start: int)
    requires
        0 <= start <= s.len(),
        forall|j: int| start <= j < s.len() ==> !separator_at(s, j),
    ensures
        split_path(s.subrange(start, s.len() as int)) == seq![s.subrange(start, s.len() as int)],
{
    let sub = s.subrange(start, s.len() as int);
    assert forall|j: int| !first_separator(sub, j) by {
        if separator_at(sub, j) {
            assert(separator_at(s, j + start));
        }
    }
}

/// The paths of a list of tokens.
pub open spec fn paths_of(tokens: Seq<Seq<char>>) -> Seq<Seq<Seq<char>>> {
    tokens.map_values(|t: Seq<char>| split_path(t))
}

/// The segments of `token`, split at each `::`.
pub fn split_segments(token: &str) -> (r: Vec<String>)
    ensures
        r@.map_values(|p: String| p@) == split_path(token@),
{
    let n = token.unicode_len();
    let ghost s = token@;
    let mut parts: Vec<String> = Vec::new();
    let mut start: usize = 0;
    let mut i: usize = 0;
    assert(s.subrange(0, s.len() as int) =~= s);
    while n > 0 && i < n - 1
        invariant
            n == s.len(),
            s == token@,
            start <= i <= n,
            split_path(s) == parts@.map_values(|p: String| p@) + split_path(s.subrange(start as int, n as int)),
            forall|j: int| start <= j < i ==> !separator_at(s, j),
        decreases n - i,
    {
        if token.get_char(i) == ':' && token.get_char(i + 1) == ':' {
            proof {
                lemma_split_step(s, start as int, i as int);
            }
            let part = token.substring_char(start, i).to_owned();
            let ghost before = parts@.map_values(|p: String| p@);
            parts.push(part);
            assert(parts@.map_values(|p: String| p@) =~= before.push(s.subrange(start as int, i as int)));
            assert(before + (seq![s.subrange(start as int, i as int)] + split_path(s.subrange(i + 2, n as int)))
                =~= parts@.map_values(|p: String| p@) + split_path(s.subrange(i + 2, n as int)));
            i += 2;
            start = i;
        } else {
            i += 1;
        }
    }
    proof {
        assert forall|j: int| start <= j < s.len() implies !separator_at(s, j) by {
            if j >= i {
                assert(j + 1 >= s.len());
            }
        }
        lemma_split_last(s, start as int);
    }
    let last = token.substring_char(start, n).to_owned();
    let ghost before = parts@.map_values(|p: String| p@);
    parts.push(last);
    assert(parts@.map_values(|p: String| p@) =~= before + seq![s.subrange(start as int, n as int)]);
    parts
}

/// One symbol per token, its segments split at `::`: the last segment is the
/// leaf and those before it name its container.
pub fn symbols_from_tokens(tokens: &Vec<String>) -> (r: Vec<Symbol>)
    ensures
        symbols_view(r@) == tokens@.map_values(|t: String| split_path(t@)),
{
    let mut out: Vec<Symbol> = Vec::new();
    let mut k: usize = 0;
    while k < tokens.len()
        invariant
            k <= tokens@.len(),
            symbols_view(out@) == tokens@.map_values(|t: String| split_path(t@)).subrange(0, k as int),
        decreases tokens@.len() - k,
    {
        let parts = split_segments(tokens[k].as_str());
        let sym = Symbol { parts };
        let ghost before = symbols_view(out@);
        out.push(sym);
        assert(symbols_view(out@) =~= before.push(sym@));
        assert(symbols_view(out@) =~= tokens@.map_values(|t: String| split_path(t@)).subrange(0, k + 1));
        k += 1;
    }
    assert(tokens@.map_values(|t: String| split_path(t@)).subrange(0, tokens@.len() as int)
        =~= tokens@.map_values(|t: String| split_path(t@)));
    out
}

/// The symbols named in free-form instruction text: each identifier-like
/// token, split into its `::` segments. The pattern is a constant that
/// compiles; were it not to, there would be no symbols.
pub fn parse_instruction_symbols(text: &str) -> (r: Vec<Symbol>)
    ensures
        symbols_view(r@) == match symbol_tokens_of(text@) {
            Some(tokens) => paths_of(tokens),
            None => seq![],
        },
{
    match symbol_tokens(text) {
        Some(tokens) => {
            let r = symbols_from_tokens(&tokens);
            let ghost tv = tokens@.map_values(|t: String| t@);
            assert(symbols_view(r@) =~= paths_of(tv));
            r
        },
        None => {
            let r: Vec<Symbol> = Vec::new();
            assert(symbols_view(r@) =~= Seq::<Seq<Seq<char>>>::empty());
            r
        },
    }
}

} // verus!
