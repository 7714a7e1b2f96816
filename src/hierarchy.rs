use vstd::prelude::*;
use vstd::string::*;

use crate::sort::{entry_before, sort_order, sorted_by_keys};
use crate::span::Span;
use crate::symbol::{is_prefix_of, Symbol};
use crate::text::{is_valid_range, slice_chars, slice_range, valid_range};

verus! {

/// One capture of a query match: the capture's index in the query and the byte
/// range of the captured node.
#[derive(Clone, Copy, Debug)]
pub struct Capture {
    pub index: u32,
    pub start: usize,
    pub end: usize,
}

/// The capture indices that a symbol query gives its three labels: `name` (the
/// symbol's identifier), `context` (text shown beside the name) and `item` (the
/// whole construct).
#[derive(Clone, Copy, Debug)]
pub struct CaptureLabels {
    pub name: Option<u32>,
    pub context: Option<u32>,
    pub item: Option<u32>,
}

/// Why symbols could not be extracted.
#[derive(Clone, Copy, Debug, PartialEq, Eq, Structural)]
pub enum ExtractError {
    /// The text could not be parsed.
    ParseFailed,
    /// A match of a named symbol had a range outside the text or off a character
    /// boundary, no item range, or a visible part outside its item.
    MalformedMatch,
}

/// One named construct: its symbol, its whole extent, and the part of it that
/// stays visible when it is collapsed.
#[derive(Debug)]
pub struct SymbolRecord {
    pub symbol: Symbol,
    pub item_span: Span,
    pub summary_span: Span,
}

impl View for SymbolRecord {
    type V = (Seq<Seq<char>>, Span, Span);

    open spec fn view(&self) -> (Seq<Seq<char>>, Span, Span) {
        (self.symbol@, self.item_span, self.summary_span)
    }
}

pub open spec fn records_view(records: Seq<SymbolRecord>) -> Seq<(Seq<Seq<char>>, Span, Span)> {
    records.map_values(|r: SymbolRecord| r@)
}

/// Every record's item and summary are ranges of `text` on character boundaries.
pub open spec fn records_in_text(text: Seq<u8>, rs: Seq<(Seq<Seq<char>>, Span, Span)>) -> bool {
    forall|k: int|
        0 <= k < rs.len() ==> {
            &&& valid_range(text, (#[trigger] rs[k]).1.start as int, rs[k].1.end as int)
            &&& valid_range(text, rs[k].2.start as int, rs[k].2.end as int)
        }
}

pub open spec fn matches_view(matches: Seq<Vec<Capture>>) -> Seq<Seq<Capture>> {
    matches.map_values(|m: Vec<Capture>| m@)
}

/// What the captures of one match add up to so far.
#[derive(Clone, Copy, Debug)]
pub struct MatchScan {
    /// The range of the last `name` capture.
    pub name: Option<Span>,
    /// The union of the `name` and `context` captures.
    pub summary: Span,
    /// The union of the `item` captures.
    pub item: Span,
    /// Every labelled capture so far is a valid range of the text.
    pub valid: bool,
}

pub open spec fn empty_scan() -> MatchScan {
    MatchScan {
        name: None,
        summary: Span { start: usize::MAX, end: 0 },
        item: Span { start: usize::MAX, end: 0 },
        valid: true,
    }
}

pub open spec fn widen(s: Span, start: usize, end: usize) -> Span {
    Span {
        start: if start < s.start { start } else { s.start },
        end: if end > s.end { end } else { s.end },
    }
}

/// The scan after one more capture.
pub open spec fn scan_step(text: Seq<u8>, labels: CaptureLabels, acc: MatchScan, c: Capture) -> MatchScan {
    let ok = acc.valid && valid_range(text, c.start as int, c.end as int);
    if labels.name == Some(c.index) {
        MatchScan {
            name: Some(Span { start: c.start, end: c.end }),
            summary: widen(acc.summary, c.start, c.end),
            valid: ok,
            ..acc
        }
    } else if labels.context == Some(c.index) {
        MatchScan { summary: widen(acc.summary, c.start, c.end), valid: ok, ..acc }
    } else if labels.item == Some(c.index) {
        MatchScan { item: widen(acc.item, c.start, c.end), valid: ok, ..acc }
    } else {
        acc
    }
}

/// The scan of a whole match, capture by capture.
pub open spec fn scan_spec(text: Seq<u8>, labels: CaptureLabels, m: Seq<Capture>) -> MatchScan
    decreases m.len(),
{
    if m.len() == 0 {
        empty_scan()
    } else {
        scan_step(text, labels, scan_spec(text, labels, m.drop_last()), m.last())
    }
}

/// A scan that names a symbol whose ranges are sound: all within the text on
/// character boundaries, and the visible part within the item.
pub open spec fn scan_well_formed(text: Seq<u8>, s: MatchScan) -> bool {
    &&& s.valid
    &&& s.name is Some
    &&& valid_range(text, s.summary.start as int, s.summary.end as int)
    &&& valid_range(text, s.item.start as int, s.item.end as int)
    &&& s.item.contains(s.summary)
}

/// The record that a well-formed scan yields: a one-segment symbol.
pub open spec fn scan_record(text: Seq<u8>, s: MatchScan) -> (Seq<Seq<char>>, Span, Span) {
    let n = s.name->Some_0;
    (seq![slice_chars(text, n.start as int, n.end as int)], s.item, s.summary)
}

/// The records of a list of matches, in match order: a match without a name is
/// skipped; `None` when some named match is not well formed.
pub open spec fn records_spec(text: Seq<u8>, labels: CaptureLabels, ms: Seq<Seq<Capture>>) -> Option<
    Seq<(Seq<Seq<char>>, Span, Span)>,
>
    decreases ms.len(),
{
    if ms.len() == 0 {
        Some(seq![])
    } else {
        match records_spec(text, labels, ms.drop_last()) {
            None => None,
            Some(prev) => {
                let s = scan_spec(text, labels, ms.last());
                if s.name is None {
                    Some(prev)
                } else if scan_well_formed(text, s) {
                    Some(prev.push(scan_record(text, s)))
                } else {
                    None
                }
            },
        }
    }
}

fn widen_exec(s: Span, start: usize, end: usize) -> (r: Span)
    ensures
        r == widen(s, start, end),
{
    Span {
        start: if start < s.start { start } else { s.start },
        end: if end > s.end { end } else { s.end },
    }
}

/// Adds up the captures of one match.
pub fn scan_match(text: &str, labels: CaptureLabels, m: &Vec<Capture>) -> (r: MatchScan)
    ensures
        r == scan_spec(text.spec_bytes(), labels, m@),
{
    let mut acc = MatchScan {
        name: None,
        summary: Span { start: usize::MAX, end: 0 },
        item: Span { start: usize::MAX, end: 0 },
        valid: true,
    };
    let mut i: usize = 0;
    while i < m.len()
        invariant
            i <= m@.len(),
            acc == scan_spec(text.spec_bytes(), labels, m@.subrange(0, i as int)),
        decreases m@.len() - i,
    {
        let c = m[i];
        assert(m@.subrange(0, i + 1).drop_last() =~= m@.subrange(0, i as int));
        let ok = acc.valid && is_valid_range(text, c.start, c.end);
        if labels.name == Some(c.index) {
            acc = MatchScan {
                name: Some(Span { start: c.start, end: c.end }),
                summary: widen_exec(acc.summary, c.start, c.end),
                valid: ok,
                ..acc
            };
        } else if labels.context == Some(c.index) {
            acc = MatchScan { summary: widen_exec(acc.summary, c.start, c.end), valid: ok, ..acc };
        } else if labels.item == Some(c.index) {
            acc = MatchScan { item: widen_exec(acc.item, c.start, c.end), valid: ok, ..acc };
        }
        i += 1;
    }
    assert(m@.subrange(0, m@.len() as int) =~= m@);
    acc
}

/// The one-segment symbol records of a list of query matches over `text`, in
/// match order. A match without a `name` capture defines no symbol and is
/// skipped; a named match whose ranges are unsound fails the whole call.
pub fn records_from_matches(text: &str, labels: CaptureLabels, matches: &Vec<Vec<Capture>>) -> (r:
    Result<Vec<SymbolRecord>, ExtractError>)
    ensures
        match records_spec(text.spec_bytes(), labels, matches_view(matches@)) {
            None => r == Err::<Vec<SymbolRecord>, ExtractError>(ExtractError::MalformedMatch),
            Some(recs) => r is Ok && records_view(r->Ok_0@) == recs,
        },
        r is Ok ==> forall|k: int|
            0 <= k < r->Ok_0@.len() ==> (#[trigger] r->Ok_0@[k]).item_span.contains(
                r->Ok_0@[k].summary_span,
            ),
        r is Ok ==> records_in_text(text.spec_bytes(), records_view(r->Ok_0@)),
{
    let ghost bytes = text.spec_bytes();
    let ghost mv = matches_view(matches@);
    let mut out: Vec<SymbolRecord> = Vec::new();
    let mut i: usize = 0;
    while i < matches.len()
        invariant
            i <= matches@.len(),
            bytes == text.spec_bytes(),
            mv == matches_view(matches@),
            records_spec(bytes, labels, mv.subrange(0, i as int)) == Some(records_view(out@)),
            forall|k: int| 0 <= k < out@.len() ==> (#[trigger] out@[k]).item_span.contains(out@[k].summary_span),
            records_in_text(bytes, records_view(out@)),
        decreases matches@.len() - i,
    {
        assert(mv.subrange(0, i + 1).drop_last() =~= mv.subrange(0, i as int));
        assert(mv.subrange(0, i + 1).last() == matches@[i as int]@);
        let s = scan_match(text, labels, &matches[i]);
        match s.name {
            None => {},
            Some(n) => {
                let wf = s.valid && is_valid_range(text, s.summary.start, s.summary.end)
                    && is_valid_range(text, s.item.start, s.item.end) && s.item.start
                    <= s.summary.start && s.summary.end <= s.item.end;
                if !wf {
                    proof {
                        let k = (i + 1) as int;
                        assert forall|j: int| k <= j <= mv.len() implies records_spec(
                            bytes,
                            labels,
                            mv.subrange(0, j),
                        ) is None by {
                            lemma_records_none_extends(bytes, labels, mv, k, j);
                        }
                        assert(mv.subrange(0, mv.len() as int) =~= mv);
                    }
                    return Err(ExtractError::MalformedMatch);
                }
                proof {
                    lemma_scan_name_valid(bytes, labels, matches@[i as int]@);
                }
                let name = slice_range(text, n.start, n.end).to_owned();
                let symbol = Symbol { parts: vec![name] };
                assert(symbol@ =~= seq![slice_chars(bytes, n.start as int, n.end as int)]);
                let ghost prev = records_view(out@);
                out.push(SymbolRecord { symbol, item_span: s.item, summary_span: s.summary });
                assert(records_view(out@) =~= prev.push(scan_record(bytes, s)));
            },
        }
        i += 1;
    }
    assert(mv.subrange(0, mv.len() as int) =~= mv);
    Ok(out)
}

proof fn lemma_scan_name_valid(text: Seq<u8>, labels: CaptureLabels, m: Seq<Capture>)
    ensures
        ({
            let s = scan_spec(text, labels, m);
            s.valid && s.name is Some ==> valid_range(
                text,
                s.name->Some_0.start as int,
                s.name->Some_0.end as int,
            )
        }),
    decreases m.len(),
{
    if m.len() > 0 {
        lemma_scan_name_valid(text, labels, m.drop_last());
    }
}

proof fn lemma_records_none_extends(
    text: Seq<u8>,
    labels: CaptureLabels,
    ms: Seq<Seq<Capture>>,
    k: int,
    j: int,
)
    requires
        0 <= k <= j <= ms.len(),
        records_spec(text, labels, ms.subrange(0, k)) is None,
    ensures
        records_spec(text, labels, ms.subrange(0, j)) is None,
    decreases j - k,
{
    if j > k {
        lemma_records_none_extends(text, labels, ms, k, j - 1);
        assert(ms.subrange(0, j).drop_last() =~= ms.subrange(0, j - 1));
    }
}

} // verus!

verus! {

/// The sort key of a record: item start ascending, then item end descending, so
/// that an outer construct comes before an inner one that starts with it.
pub open spec fn nesting_key(r: (Seq<Seq<char>>, Span, Span)) -> (usize, usize) {
    (r.1.start, (usize::MAX - r.1.end) as usize)
}

pub open spec fn nesting_keys(rs: Seq<(Seq<Seq<char>>, Span, Span)>) -> Seq<(usize, usize)> {
    rs.map_values(|r: (Seq<Seq<char>>, Span, Span)| nesting_key(r))
}

/// The records taken in the order `order`.
pub open spec fn permuted(rs: Seq<(Seq<Seq<char>>, Span, Span)>, order: Seq<usize>) -> Seq<
    (Seq<Seq<char>>, Span, Span),
> {
    order.map_values(|i: usize| rs[i as int])
}

/// In the sorted records `s`, record `j` is the immediate parent of record `k`:
/// the last record before `k` whose item has not closed where `k` starts.
pub open spec fn is_parent(s: Seq<(Seq<Seq<char>>, Span, Span)>, j: int, k: int) -> bool {
    &&& 0 <= j < k
    &&& s[j].1.end > s[k].1.start
    &&& forall|m: int| j < m < k ==> s[m].1.end <= s[k].1.start
}

pub open spec fn parent_of(s: Seq<(Seq<Seq<char>>, Span, Span)>, k: int) -> Option<int> {
    if exists|j: int| is_parent(s, j, k) {
        Some(choose|j: int| is_parent(s, j, k))
    } else {
        None
    }
}

/// `out` is the nesting of the sorted records `s`: each record keeps its spans,
/// and its symbol is its parent's qualified symbol followed by its own segments.
pub open spec fn nested(s: Seq<(Seq<Seq<char>>, Span, Span)>, out: Seq<(Seq<Seq<char>>, Span, Span)>) -> bool {
    &&& out.len() == s.len()
    &&& forall|k: int|
        0 <= k < s.len() ==> {
            &&& (#[trigger] out[k]).1 == s[k].1
            &&& out[k].2 == s[k].2
            &&& out[k].0 == match parent_of(s, k) {
                Some(j) => out[j].0 + s[k].0,
                None => s[k].0,
            }
        }
}

/// `out` is `rs` sorted for nesting (input order breaking ties) and nested.
pub open spec fn is_nesting(rs: Seq<(Seq<Seq<char>>, Span, Span)>, out: Seq<(Seq<Seq<char>>, Span, Span)>) -> bool {
    exists|order: Seq<usize>|
        {
            &&& order.len() == rs.len()
            &&& sorted_by_keys(nesting_keys(rs), order)
            &&& nested(permuted(rs, order), out)
        }
}

fn concat_symbols(a: &Symbol, b: &Symbol) -> (r: Symbol)
    ensures
        r@ == a@ + b@,
{
    let mut r = a.duplicate();
    let mut i: usize = 0;
    while i < b.parts.len()
        invariant
            i <= b.parts@.len(),
            r@ == a@ + b@.subrange(0, i as int),
        decreases b.parts@.len() - i,
    {
        let part = b.parts[i].clone();
        assert(part@ == b@[i as int]);
        let ghost before = r@;
        r.parts.push(part);
        assert(r@ =~= before.push(part@));
        assert(r@ =~= a@ + b@.subrange(0, i + 1));
        i += 1;
    }
    assert(b@.subrange(0, b@.len() as int) =~= b@);
    r
}

/// Resolves nesting: sorts the records by item start ascending and item end
/// descending (input order breaks ties), then gives each record the qualified
/// symbol of its immediate parent followed by its own segments.
pub fn process_symbols(records: Vec<SymbolRecord>) -> (r: Vec<SymbolRecord>)
    ensures
        is_nesting(records_view(records@), records_view(r@)),
        (forall|i: int|
            0 <= i < records@.len() ==> (#[trigger] records@[i]).item_span.contains(
                records@[i].summary_span,
            )) ==> forall|k: int|
            0 <= k < r@.len() ==> (#[trigger] r@[k]).item_span.contains(r@[k].summary_span),
{
    let ghost rv = records_view(records@);
    let mut keys: Vec<(usize, usize)> = Vec::new();
    let mut i: usize = 0;
    while i < records.len()
        invariant
            i <= records@.len(),
            rv == records_view(records@),
            keys@ == nesting_keys(rv).subrange(0, i as int),
        decreases records@.len() - i,
    {
        let it = records[i].item_span;
        keys.push((it.start, usize::MAX - it.end));
        assert(keys@ =~= nesting_keys(rv).subrange(0, i + 1));
        i += 1;
    }
    assert(keys@ =~= nesting_keys(rv));
    let order = sort_order(&keys);
    let ghost s = permuted(rv, order@);
    let n = order.len();
    let mut out: Vec<SymbolRecord> = Vec::new();
    let mut stack: Vec<usize> = Vec::new();
    let mut k: usize = 0;
    while k < n
        invariant
            n == order@.len(),
            n == records@.len(),
            rv == records_view(records@),
            s == permuted(rv, order@),
            sorted_by_keys(nesting_keys(rv), order@),
            k <= n,
            out@.len() == k,
            forall|m: int|
                0 <= m < k ==> {
                    &&& (#[trigger] records_view(out@)[m]).1 == s[m].1
                    &&& records_view(out@)[m].2 == s[m].2
                    &&& records_view(out@)[m].0 == match parent_of(s, m) {
                        Some(j) => records_view(out@)[j].0 + s[m].0,
                        None => s[m].0,
                    }
                },
            forall|a: int, b: int| 0 <= a < b < stack@.len() ==> stack@[a] < stack@[b],
            forall|a: int| 0 <= a < stack@.len() ==> stack@[a] < k,
            forall|j: int, m: int|
                0 <= j < k && k <= m < n && !stack@.contains(j as usize) ==> s[j].1.end <= s[m].1.start,
        decreases n - k,
    {
        proof {
            lemma_sorted_starts(rv, order@, s, k as int);
        }
        let cur = order[k];
        let start = records[cur].item_span.start;
        while stack.len() > 0 && out[stack[stack.len() - 1]].item_span.end <= start
            invariant
                n == order@.len(),
                rv == records_view(records@),
                s == permuted(rv, order@),
                k < n,
                out@.len() == k,
                start == s[k as int].1.start,
                forall|m: int| 0 <= m < k ==> (#[trigger] records_view(out@)[m]).1 == s[m].1,
                forall|m: int| k <= m < n ==> s[k as int].1.start <= #[trigger] s[m].1.start,
                forall|a: int, b: int| 0 <= a < b < stack@.len() ==> stack@[a] < stack@[b],
                forall|a: int| 0 <= a < stack@.len() ==> stack@[a] < k,
                forall|j: int, m: int|
                    0 <= j < k && k <= m < n && !stack@.contains(j as usize) ==> s[j].1.end <= s[m].1.start,
            decreases stack@.len(),
        {
            let ghost top = stack@.last();
            let ghost before = stack@;
            assert(records_view(out@)[top as int].1 == s[top as int].1);
            stack.pop();
            assert forall|j: int, m: int|
                0 <= j < k && k <= m < n && !stack@.contains(j as usize) implies s[j].1.end <= s[m].1.start by {
                if j as usize != top {
                    if before.contains(j as usize) {
                        let q = choose|q: int| 0 <= q < before.len() && before[q] == j as usize;
                        assert(q < stack@.len());
                        assert(stack@[q] == j as usize);
                    }
                }
            }
        }
        let ghost parent = parent_of(s, k as int);
        let symbol = if stack.len() > 0 {
            let t = stack[stack.len() - 1];
            proof {
                assert(records_view(out@)[t as int].1 == s[t as int].1);
                assert forall|m: int| t < m < k implies s[m].1.end <= s[k as int].1.start by {
                    if stack@.contains(m as usize) {
                        let q = choose|q: int| 0 <= q < stack@.len() && stack@[q] == m as usize;
                        assert(stack@[q] < stack@[stack@.len() - 1]);
                    }
                }
                assert(is_parent(s, t as int, k as int));
                assert forall|j: int| is_parent(s, j, k as int) implies j == t as int by {
                    if j < t {
                        assert(s[t as int].1.end > s[k as int].1.start);
                    } else if j > t {
                        if stack@.contains(j as usize) {
                            let q = choose|q: int| 0 <= q < stack@.len() && stack@[q] == j as usize;
                            assert(stack@[q] < stack@[stack@.len() - 1]);
                        }
                    }
                }
                assert(parent == Some(t as int));
            }
            concat_symbols(&out[t].symbol, &records[cur].symbol)
        } else {
            proof {
                assert forall|j: int| !is_parent(s, j, k as int) by {
                    if 0 <= j < k {
                        assert(!stack@.contains(j as usize));
                    }
                }
                assert(parent is None);
            }
            records[cur].symbol.duplicate()
        };
        let ghost prev = records_view(out@);
        out.push(
            SymbolRecord {
                symbol,
                item_span: records[cur].item_span,
                summary_span: records[cur].summary_span,
            },
        );
        assert(records_view(out@) =~= prev.push(records_view(out@)[k as int]));
        let ghost st = stack@;
        stack.push(k);
        assert forall|j: int, m: int|
            0 <= j < k + 1 && k + 1 <= m < n && !stack@.contains(j as usize) implies s[j].1.end
            <= s[m].1.start by {
            if j == k {
                assert(stack@[st.len() as int] == k);
            }
            if st.contains(j as usize) {
                let q = choose|q: int| 0 <= q < st.len() && st[q] == j as usize;
                assert(stack@[q] == j as usize);
            }
        }
        k += 1;
    }
    proof {
        assert(nested(s, records_view(out@)));
        if forall|i: int|
            0 <= i < records@.len() ==> (#[trigger] records@[i]).item_span.contains(
                records@[i].summary_span,
            ) {
            assert forall|q: int| 0 <= q < out@.len() implies (#[trigger] out@[q]).item_span.contains(
                out@[q].summary_span,
            ) by {
                assert(records_view(out@)[q].1 == s[q].1);
                let i = order@[q] as int;
                assert(s[q] == rv[i]);
                assert(rv[i] == records@[i]@);
                assert(records_view(out@)[q] == out@[q]@);
                assert(records@[i].item_span.contains(records@[i].summary_span));
            }
        }
    }
    out
}

/// In sorted order, item starts never decrease.
proof fn lemma_sorted_starts(
    rv: Seq<(Seq<Seq<char>>, Span, Span)>,
    order: Seq<usize>,
    s: Seq<(Seq<Seq<char>>, Span, Span)>,
    k: int,
)
    requires
        order.len() == rv.len(),
        sorted_by_keys(nesting_keys(rv), order),
        s == permuted(rv, order),
        0 <= k < order.len(),
    ensures
        forall|m: int| k <= m < order.len() ==> s[k].1.start <= #[trigger] s[m].1.start,
{
    assert forall|m: int| k <= m < order.len() implies s[k].1.start <= #[trigger] s[m].1.start by {
        if k < m {
            assert(entry_before(
                nesting_keys(rv)[order[k] as int],
                order[k] as int,
                nesting_keys(rv)[order[m] as int],
                order[m] as int,
            ));
            assert(s[k] == rv[order[k] as int]);
            assert(s[m] == rv[order[m] as int]);
            assert(nesting_keys(rv)[order[k] as int] == nesting_key(rv[order[k] as int]));
            assert(nesting_keys(rv)[order[m] as int] == nesting_key(rv[order[m] as int]));
        }
    }
}

/// Nesting keeps each record's spans, so records within a text stay within it.
pub proof fn lemma_nesting_in_text(
    text: Seq<u8>,
    rs: Seq<(Seq<Seq<char>>, Span, Span)>,
    out: Seq<(Seq<Seq<char>>, Span, Span)>,
)
    requires
        is_nesting(rs, out),
        records_in_text(text, rs),
    ensures
        records_in_text(text, out),
{
    let order = choose|order: Seq<usize>|
        {
            &&& order.len() == rs.len()
            &&& sorted_by_keys(nesting_keys(rs), order)
            &&& nested(permuted(rs, order), out)
        };
    let s = permuted(rs, order);
    assert forall|k: int| 0 <= k < out.len() implies {
        &&& valid_range(text, (#[trigger] out[k]).1.start as int, out[k].1.end as int)
        &&& valid_range(text, out[k].2.start as int, out[k].2.end as int)
    } by {
        assert(out[k].1 == s[k].1);
        assert(out[k].2 == s[k].2);
        assert(s[k] == rs[order[k] as int]);
    }
}

/// Every record that extraction yields shows a summary that lies within its
/// item.
pub proof fn lemma_records_contained(text: Seq<u8>, labels: CaptureLabels, ms: Seq<Seq<Capture>>)
    ensures
        records_spec(text, labels, ms) matches Some(recs) ==> forall|k: int|
            0 <= k < recs.len() ==> (#[trigger] recs[k]).1.contains(recs[k].2),
    decreases ms.len(),
{
    if ms.len() > 0 {
        lemma_records_contained(text, labels, ms.drop_last());
        if let Some(recs) = records_spec(text, labels, ms) {
            let prev = records_spec(text, labels, ms.drop_last())->Some_0;
            assert forall|k: int| 0 <= k < recs.len() implies (#[trigger] recs[k]).1.contains(recs[k].2) by {
                if k < prev.len() {
                    assert(recs[k] == prev[k]);
                }
            }
        }
    }
}

/// In a nesting, each record's parent comes before it, and the parent's
/// qualified symbol is a prefix of the record's.
pub proof fn lemma_parent_first(
    s: Seq<(Seq<Seq<char>>, Span, Span)>,
    out: Seq<(Seq<Seq<char>>, Span, Span)>,
    k: int,
)
    requires
        nested(s, out),
        0 <= k < s.len(),
    ensures
        match parent_of(s, k) {
            Some(j) => 0 <= j < k && is_prefix_of(out[j].0, out[k].0),
            None => out[k].0 == s[k].0,
        },
{
    assert(out[k].1 == s[k].1);
    if let Some(j) = parent_of(s, k) {
        assert(is_parent(s, j, k));
        assert(out[k].0 == out[j].0 + s[k].0);
    }
}

} // verus!
