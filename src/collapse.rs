use vstd::prelude::*;
use vstd::string::*;

use crate::hierarchy::{
    is_nesting, lemma_nesting_in_text, records_in_text, matches_view, process_symbols, records_from_matches, records_spec, records_view,
    widen, Capture, CaptureLabels, ExtractError, SymbolRecord,
};
use crate::sort::{entry_before, sort_order, sorted_by_keys};
use crate::span::Span;
use crate::symbol::{is_relevant, relevant, symbols_view, Symbol};
use crate::text::{is_valid_range, push_range, push_rest, slice_chars, valid_range};

verus! {

broadcast use {
    vstd::string::group_string_axioms,
    vstd::utf8::is_char_boundary_start_end_of_seq,
    vstd::utf8::encode_utf8_valid_utf8,
};

/// What an elided range is shown as.
#[derive(Clone, Copy, Debug, PartialEq, Eq, Structural)]
pub enum CollapseReplacement {
    /// The text of this span of the original, followed by ` ...`.
    Range(Span),
    /// The fixed text `use ...`, for a block of import declarations.
    Imports,
}

/// One elision: the `target` range of the original is shown as `replacement`.
#[derive(Clone, Copy, Debug, PartialEq, Eq, Structural)]
pub struct Collapse {
    pub replacement: CollapseReplacement,
    pub target: Span,
}

/// The ranges of a collapse lie within `text` on character boundaries.
pub open spec fn collapse_ok(text: Seq<u8>, c: Collapse) -> bool {
    &&& valid_range(text, c.target.start as int, c.target.end as int)
    &&& match c.replacement {
        CollapseReplacement::Range(r) => valid_range(text, r.start as int, r.end as int),
        CollapseReplacement::Imports => true,
    }
}

/// Each target ends before the next one starts.
pub open spec fn separated(cs: Seq<Collapse>) -> bool {
    forall|i: int| 0 <= i < cs.len() - 1 ==> (#[trigger] cs[i]).target.end < cs[i + 1].target.start
}

/// A sorted, non-overlapping list of sound collapses of `text`.
pub open spec fn collapses_well_formed(text: Seq<u8>, cs: Seq<Collapse>) -> bool {
    &&& forall|i: int| 0 <= i < cs.len() ==> collapse_ok(text, #[trigger] cs[i])
    &&& separated(cs)
}

/// Targets start in non-decreasing order, and no target is inverted.
pub open spec fn sorted_by_start(cs: Seq<Collapse>) -> bool {
    &&& forall|i: int, j: int| 0 <= i < j < cs.len() ==> cs[i].target.start <= cs[j].target.start
    &&& forall|i: int| 0 <= i < cs.len() ==> (#[trigger] cs[i]).target.start <= cs[i].target.end
}

/// Adds one collapse to a merged list: it joins the last one when their targets
/// overlap or touch (the last one's replacement is kept), else it is appended.
pub open spec fn merge_step(acc: Seq<Collapse>, c: Collapse) -> Seq<Collapse> {
    if acc.len() > 0 && acc.last().target.end >= c.target.start {
        let last = acc.last();
        let end = if c.target.end > last.target.end { c.target.end } else { last.target.end };
        acc.update(
            acc.len() - 1,
            Collapse { target: Span { start: last.target.start, end }, ..last },
        )
    } else {
        acc.push(c)
    }
}

/// The merge of a list of collapses, taken in order.
pub open spec fn merge_spec(cs: Seq<Collapse>) -> Seq<Collapse>
    decreases cs.len(),
{
    if cs.len() == 0 {
        seq![]
    } else {
        merge_step(merge_spec(cs.drop_last()), cs.last())
    }
}

/// Merges overlapping or touching targets of a list sorted by target start.
pub fn merge_collapses(cs: &Vec<Collapse>) -> (r: Vec<Collapse>)
    ensures
        r@ == merge_spec(cs@),
{
    let mut merged: Vec<Collapse> = Vec::new();
    let mut i: usize = 0;
    while i < cs.len()
        invariant
            i <= cs@.len(),
            merged@ == merge_spec(cs@.subrange(0, i as int)),
        decreases cs@.len() - i,
    {
        let c = cs[i];
        assert(cs@.subrange(0, i + 1).drop_last() =~= cs@.subrange(0, i as int));
        let n = merged.len();
        if n > 0 && merged[n - 1].target.end >= c.target.start {
            let last = merged[n - 1];
            let end = if c.target.end > last.target.end { c.target.end } else { last.target.end };
            merged.set(n - 1, Collapse { target: Span { start: last.target.start, end }, ..last });
        } else {
            merged.push(c);
        }
        i += 1;
    }
    assert(cs@.subrange(0, cs@.len() as int) =~= cs@);
    merged
}

/// Merging a list sorted by start gives a separated list whose last target
/// starts no later than the input's last one, and keeps every collapse sound.
pub proof fn lemma_merge_separated(text: Seq<u8>, cs: Seq<Collapse>)
    requires
        sorted_by_start(cs),
    ensures
        separated(merge_spec(cs)),
        forall|i: int| 0 <= i < merge_spec(cs).len() ==> (#[trigger] merge_spec(cs)[i]).target.start <= merge_spec(cs)[i].target.end,
        merge_spec(cs).len() > 0 ==> cs.len() > 0 && merge_spec(cs).last().target.start <= cs.last().target.start,
        (forall|i: int| 0 <= i < cs.len() ==> collapse_ok(text, #[trigger] cs[i])) ==> forall|i: int|
            0 <= i < merge_spec(cs).len() ==> collapse_ok(text, #[trigger] merge_spec(cs)[i]),
    decreases cs.len(),
{
    if cs.len() > 0 {
        let prev = cs.drop_last();
        assert(sorted_by_start(prev));
        lemma_merge_separated(text, prev);
        let acc = merge_spec(prev);
        let m = merge_spec(cs);
        assert(m == merge_step(acc, cs.last()));
        if acc.len() > 0 {
            assert(cs[cs.len() - 2] == prev.last());
        }
        if forall|i: int| 0 <= i < cs.len() ==> collapse_ok(text, #[trigger] cs[i]) {
            assert forall|i: int| 0 <= i < prev.len() implies collapse_ok(text, #[trigger] prev[i]) by {
                assert(prev[i] == cs[i]);
            }
            assert(collapse_ok(text, cs[cs.len() - 1]));
            assert forall|i: int| 0 <= i < m.len() implies collapse_ok(text, #[trigger] m[i]) by {
                if i < acc.len() - 1 || i >= acc.len() {
                } else {
                    assert(collapse_ok(text, acc[i]));
                }
            }
        }
    }
}

/// A separated list with no inverted target is left as it is by merging.
pub proof fn lemma_merge_of_separated(cs: Seq<Collapse>)
    requires
        separated(cs),
    ensures
        merge_spec(cs) == cs,
    decreases cs.len(),
{
    if cs.len() > 0 {
        let prev = cs.drop_last();
        assert(separated(prev)) by {
            assert forall|i: int| 0 <= i < prev.len() - 1 implies (#[trigger] prev[i]).target.end < prev[i + 1].target.start by {
                assert(prev[i] == cs[i]);
                assert(prev[i + 1] == cs[i + 1]);
            }
        }
        lemma_merge_of_separated(prev);
        if prev.len() > 0 {
            assert(prev.last() == cs[cs.len() - 2]);
        }
        assert(prev.push(cs.last()) =~= cs);
    }
}

/// Merging is idempotent: merging an already merged list (of a list sorted by
/// target start) gives the same list again.
pub proof fn lemma_merge_idempotent(cs: Seq<Collapse>)
    requires
        sorted_by_start(cs),
    ensures
        merge_spec(merge_spec(cs)) == merge_spec(cs),
{
    lemma_merge_separated(Seq::empty(), cs);
    lemma_merge_of_separated(merge_spec(cs));
}

/// The collapses for import blocks: one fixed placeholder per non-empty block.
pub open spec fn import_actions(blocks: Seq<Span>) -> Seq<Collapse>
    decreases blocks.len(),
{
    if blocks.len() == 0 {
        seq![]
    } else {
        let prev = import_actions(blocks.drop_last());
        let b = blocks.last();
        if b.start < b.end {
            prev.push(Collapse { replacement: CollapseReplacement::Imports, target: b })
        } else {
            prev
        }
    }
}

/// The collapses for symbols: each irrelevant record whose item reaches beyond
/// its visible part on either side is replaced by that visible part.
pub open spec fn symbol_actions(
    records: Seq<(Seq<Seq<char>>, Span, Span)>,
    important: Seq<Seq<Seq<char>>>,
) -> Seq<Collapse>
    decreases records.len(),
{
    if records.len() == 0 {
        seq![]
    } else {
        let prev = symbol_actions(records.drop_last(), important);
        let r = records.last();
        if !relevant(r.0, important) && (r.1.start < r.2.start || r.1.end > r.2.end) {
            prev.push(Collapse { replacement: CollapseReplacement::Range(r.2), target: r.1 })
        } else {
            prev
        }
    }
}

/// Symbols are elided only when irrelevant: every symbol collapse replaces
/// the item of an irrelevant record by that record's summary, so a relevant
/// symbol, such as an ancestor of an important one, gets no collapse of its own.
pub proof fn lemma_symbol_actions_irrelevant(
    records: Seq<(Seq<Seq<char>>, Span, Span)>,
    important: Seq<Seq<Seq<char>>>,
)
    ensures
        forall|a: int|
            0 <= a < symbol_actions(records, important).len() ==> exists|k: int|
                0 <= k < records.len() && !relevant(records[k].0, important)
                    && (#[trigger] symbol_actions(records, important)[a]) == (Collapse {
                    replacement: CollapseReplacement::Range(records[k].2),
                    target: records[k].1,
                }),
    decreases records.len(),
{
    if records.len() > 0 {
        let prev = records.drop_last();
        lemma_symbol_actions_irrelevant(prev, important);
        let pa = symbol_actions(prev, important);
        let sa = symbol_actions(records, important);
        assert forall|a: int| 0 <= a < sa.len() implies exists|k: int|
            0 <= k < records.len() && !relevant(records[k].0, important) && (#[trigger] sa[a])
                == (Collapse { replacement: CollapseReplacement::Range(records[k].2), target: records[k].1 }) by {
            if a < pa.len() {
                assert(sa[a] == pa[a]);
                let k = choose|k: int|
                    0 <= k < prev.len() && !relevant(prev[k].0, important) && pa[a] == (Collapse {
                        replacement: CollapseReplacement::Range(prev[k].2),
                        target: prev[k].1,
                    });
                assert(prev[k] == records[k]);
            } else {
                assert(records[records.len() - 1] == records.last());
            }
        }
    }
}

/// All collapses before sorting: import blocks first, then symbols.
pub open spec fn candidate_actions(
    records: Seq<(Seq<Seq<char>>, Span, Span)>,
    blocks: Seq<Span>,
    important: Seq<Seq<Seq<char>>>,
) -> Seq<Collapse> {
    import_actions(blocks) + symbol_actions(records, important)
}

pub open spec fn start_keys(cs: Seq<Collapse>) -> Seq<(usize, usize)> {
    cs.map_values(|c: Collapse| (c.target.start, 0usize))
}

pub open spec fn permuted_collapses(cs: Seq<Collapse>, order: Seq<usize>) -> Seq<Collapse> {
    order.map_values(|i: usize| cs[i as int])
}

/// `r` is the plan for the candidates `cs`: sorted stably by target start, then
/// merged.
pub open spec fn is_plan(cs: Seq<Collapse>, r: Seq<Collapse>) -> bool {
    exists|order: Seq<usize>|
        {
            &&& order.len() == cs.len()
            &&& sorted_by_keys(start_keys(cs), order)
            &&& r == merge_spec(permuted_collapses(cs, order))
        }
}

/// Plans the collapses of a document: one fixed placeholder per import block,
/// one summary placeholder per irrelevant symbol with a hidden part, sorted by
/// target start (stably) and merged where targets overlap or touch.
pub fn plan_collapses(records: &Vec<SymbolRecord>, import_blocks: &Vec<Span>, important: &Vec<Symbol>) -> (r:
    Vec<Collapse>)
    ensures
        is_plan(
            candidate_actions(records_view(records@), import_blocks@, symbols_view(important@)),
            r@,
        ),
{
    let ghost imp = symbols_view(important@);
    let mut cands: Vec<Collapse> = Vec::new();
    let mut i: usize = 0;
    while i < import_blocks.len()
        invariant
            i <= import_blocks@.len(),
            cands@ == import_actions(import_blocks@.subrange(0, i as int)),
        decreases import_blocks@.len() - i,
    {
        let b = import_blocks[i];
        assert(import_blocks@.subrange(0, i + 1).drop_last() =~= import_blocks@.subrange(0, i as int));
        if b.start < b.end {
            cands.push(Collapse { replacement: CollapseReplacement::Imports, target: b });
        }
        i += 1;
    }
    assert(import_blocks@.subrange(0, import_blocks@.len() as int) =~= import_blocks@);
    let ghost base = cands@;
    let ghost rv = records_view(records@);
    let mut k: usize = 0;
    while k < records.len()
        invariant
            k <= records@.len(),
            rv == records_view(records@),
            imp == symbols_view(important@),
            cands@ == base + symbol_actions(rv.subrange(0, k as int), imp),
        decreases records@.len() - k,
    {
        let rec = &records[k];
        assert(rv.subrange(0, k + 1).drop_last() =~= rv.subrange(0, k as int));
        assert(rv.subrange(0, k + 1).last() == rec@);
        let rel = is_relevant(&rec.symbol, important);
        if !rel && (rec.item_span.start < rec.summary_span.start || rec.item_span.end
            > rec.summary_span.end) {
            let ghost before = cands@;
            cands.push(
                Collapse {
                    replacement: CollapseReplacement::Range(rec.summary_span),
                    target: rec.item_span,
                },
            );
            assert(cands@ =~= before.push(cands@.last()));
        }
        proof {
            let sa = symbol_actions(rv.subrange(0, k + 1), imp);
            let prev = symbol_actions(rv.subrange(0, k as int), imp);
            if sa.len() > prev.len() {
                assert(base + sa =~= (base + prev).push(sa.last()));
            } else {
                assert(sa == prev);
            }
        }
        k += 1;
    }
    assert(rv.subrange(0, rv.len() as int) =~= rv);
    let ghost cs = cands@;
    let mut keys: Vec<(usize, usize)> = Vec::new();
    let mut j: usize = 0;
    while j < cands.len()
        invariant
            j <= cands@.len(),
            cs == cands@,
            keys@ == start_keys(cs).subrange(0, j as int),
        decreases cands@.len() - j,
    {
        keys.push((cands[j].target.start, 0));
        assert(keys@ =~= start_keys(cs).subrange(0, j + 1));
        j += 1;
    }
    assert(keys@ =~= start_keys(cs));
    let order = sort_order(&keys);
    let mut sorted: Vec<Collapse> = Vec::new();
    let mut q: usize = 0;
    while q < order.len()
        invariant
            q <= order@.len(),
            order@.len() == cs.len(),
            cs == cands@,
            sorted_by_keys(start_keys(cs), order@),
            sorted@ == permuted_collapses(cs, order@).subrange(0, q as int),
        decreases order@.len() - q,
    {
        sorted.push(cands[order[q]]);
        assert(sorted@ =~= permuted_collapses(cs, order@).subrange(0, q + 1));
        q += 1;
    }
    assert(sorted@ =~= permuted_collapses(cs, order@));
    merge_collapses(&sorted)
}

/// A plan of sound collapses is well formed: sorting by start and merging leaves
/// the targets separated.
pub proof fn lemma_plan_well_formed(text: Seq<u8>, cs: Seq<Collapse>, r: Seq<Collapse>)
    requires
        is_plan(cs, r),
        forall|i: int| 0 <= i < cs.len() ==> collapse_ok(text, #[trigger] cs[i]),
    ensures
        collapses_well_formed(text, r),
{
    let order = choose|order: Seq<usize>|
        {
            &&& order.len() == cs.len()
            &&& sorted_by_keys(start_keys(cs), order)
            &&& r == merge_spec(permuted_collapses(cs, order))
        };
    let p = permuted_collapses(cs, order);
    assert forall|i: int| 0 <= i < p.len() implies collapse_ok(text, #[trigger] p[i]) by {
        assert(p[i] == cs[order[i] as int]);
    }
    assert forall|i: int, j: int| 0 <= i < j < p.len() implies p[i].target.start <= p[j].target.start by {
        assert(entry_before(
            start_keys(cs)[order[i] as int],
            order[i] as int,
            start_keys(cs)[order[j] as int],
            order[j] as int,
        ));
        assert(p[i] == cs[order[i] as int]);
        assert(p[j] == cs[order[j] as int]);
        assert(start_keys(cs)[order[i] as int] == (cs[order[i] as int].target.start, 0usize));
        assert(start_keys(cs)[order[j] as int] == (cs[order[j] as int].target.start, 0usize));
    }
    assert(sorted_by_start(p));
    lemma_merge_separated(text, p);
}

/// The text ` ...` that follows a summary in the collapsed document.
pub open spec fn ellipsis_suffix() -> Seq<char> {
    seq![' ', '.', '.', '.']
}

/// The text `use ...` that stands for a block of imports.
pub open spec fn imports_placeholder() -> Seq<char> {
    seq!['u', 's', 'e', ' ', '.', '.', '.']
}

/// What the target of `c` is shown as.
pub open spec fn placeholder(text: Seq<u8>, c: Collapse) -> Seq<char> {
    match c.replacement {
        CollapseReplacement::Range(r) => slice_chars(text, r.start as int, r.end as int)
            + ellipsis_suffix(),
        CollapseReplacement::Imports => imports_placeholder(),
    }
}

/// The text from byte `from` on, with each collapse's target replaced by its
/// placeholder.
pub open spec fn render_from(text: Seq<u8>, cs: Seq<Collapse>, from: int) -> Seq<char>
    decreases cs.len(),
{
    if cs.len() == 0 {
        slice_chars(text, from, text.len() as int)
    } else {
        slice_chars(text, from, cs[0].target.start as int) + placeholder(text, cs[0]) + render_from(
            text,
            cs.drop_first(),
            cs[0].target.end as int,
        )
    }
}

/// The collapsed text of `text` under the collapses `cs`.
pub open spec fn rendered(text: Seq<u8>, cs: Seq<Collapse>) -> Seq<char> {
    render_from(text, cs, 0)
}

pub proof fn lemma_render_step(text: Seq<u8>, cs: Seq<Collapse>, i: int, from: int)
    requires
        0 <= i < cs.len(),
    ensures
        render_from(text, cs.subrange(i, cs.len() as int), from) == slice_chars(
            text,
            from,
            cs[i].target.start as int,
        ) + placeholder(text, cs[i]) + render_from(
            text,
            cs.subrange(i + 1, cs.len() as int),
            cs[i].target.end as int,
        ),
{
    let rest = cs.subrange(i, cs.len() as int);
    assert(rest.drop_first() =~= cs.subrange(i + 1, cs.len() as int));
    assert(rest[0] == cs[i]);
}

/// Appends the placeholder of `c` to `out`.
fn push_placeholder(out: &mut String, text: &str, c: Collapse)
    requires
        collapse_ok(text.spec_bytes(), c),
    ensures
        final(out)@ == old(out)@ + placeholder(text.spec_bytes(), c),
{
    proof {
        reveal_strlit(" ...");
        reveal_strlit("use ...");
    }
    match c.replacement {
        CollapseReplacement::Range(r) => {
            push_range(out, text, r.start, r.end);
            out.append(" ...");
            assert(" ..."@ =~= ellipsis_suffix());
        },
        CollapseReplacement::Imports => {
            out.append("use ...");
            assert("use ..."@ =~= imports_placeholder());
        },
    }
}

/// An original text together with the sorted, non-overlapping list of elisions
/// that turn it into its collapsed form.
pub struct CollapsedDocument<'a> {
    original_document: &'a str,
    collapses: Vec<Collapse>,
}

impl<'a> CollapsedDocument<'a> {
    #[verifier::type_invariant]
    pub(crate) closed spec fn inv(&self) -> bool {
        collapses_well_formed(self.original_document.spec_bytes(), self.collapses@)
    }

    /// The bytes of the original text.
    pub closed spec fn original(&self) -> Seq<u8> {
        self.original_document.spec_bytes()
    }

    /// The elisions, in order.
    pub closed spec fn collapses(&self) -> Seq<Collapse> {
        self.collapses@
    }

    pub(crate) fn original_text(&self) -> (r: &'a str)
        ensures
            r.spec_bytes() == self.original(),
            self.well_formed(),
    {
        proof {
            use_type_invariant(self);
        }
        self.original_document
    }

    pub(crate) fn collapses_vec(&self) -> (r: Vec<Collapse>)
        ensures
            r@ == self.collapses(),
    {
        self.collapses.clone()
    }

    pub open spec fn well_formed(&self) -> bool {
        collapses_well_formed(self.original(), self.collapses())
    }

    /// A collapsed document of `original_document` with the elisions
    /// `collapses`, when they are sound, sorted and separated.
    pub fn new(original_document: &'a str, collapses: Vec<Collapse>) -> (r: Option<Self>)
        ensures
            r is Some <==> collapses_well_formed(original_document.spec_bytes(), collapses@),
            r matches Some(d) ==> d.original() == original_document.spec_bytes() && d.collapses()
                == collapses@,
    {
        let mut i: usize = 0;
        while i < collapses.len()
            invariant
                i <= collapses@.len(),
                forall|j: int| 0 <= j < i ==> collapse_ok(original_document.spec_bytes(), #[trigger] collapses@[j]),
                forall|j: int| 0 <= j < i && j < collapses@.len() - 1 ==> (#[trigger] collapses@[j]).target.end < collapses@[j + 1].target.start,
            decreases collapses@.len() - i,
        {
            let c = collapses[i];
            let ok = is_valid_range(original_document, c.target.start, c.target.end) && match c.replacement {
                CollapseReplacement::Range(r) => is_valid_range(original_document, r.start, r.end),
                CollapseReplacement::Imports => true,
            };
            if !ok {
                return None;
            }
            if i + 1 < collapses.len() && c.target.end >= collapses[i + 1].target.start {
                return None;
            }
            i += 1;
        }
        Some(CollapsedDocument { original_document, collapses })
    }

    /// The collapsed text: the original with each target replaced by its
    /// placeholder.
    pub fn collapsed_document(&self) -> (r: String)
        ensures
            r@ == rendered(self.original(), self.collapses()),
    {
        proof {
            use_type_invariant(self);
        }
        let text = self.original_document;
        let ghost bytes = text.spec_bytes();
        let ghost cs = self.collapses@;
        let n = self.collapses.len();
        let mut result = String::new();
        let mut last_end: usize = 0;
        let mut i: usize = 0;
        assert(cs.subrange(0, n as int) =~= cs);
        assert(result@ + rendered(bytes, cs) =~= rendered(bytes, cs));
        while i < n
            invariant
                n == cs.len(),
                cs == self.collapses@,
                bytes == text.spec_bytes(),
                bytes == self.original(),
                collapses_well_formed(bytes, cs),
                i <= n,
                valid_range(bytes, last_end as int, last_end as int),
                i < n ==> last_end <= cs[i as int].target.start,
                i == n ==> last_end <= bytes.len(),
                result@ + render_from(bytes, cs.subrange(i as int, n as int), last_end as int) == rendered(bytes, cs),
            decreases n - i,
        {
            let c = self.collapses[i];
            assert(collapse_ok(bytes, cs[i as int]));
            proof {
                lemma_render_step(bytes, cs, i as int, last_end as int);
            }
            let ghost before = result@;
            push_range(&mut result, text, last_end, c.target.start);
            push_placeholder(&mut result, text, c);
            assert(before + render_from(bytes, cs.subrange(i as int, n as int), last_end as int)
                =~= result@ + render_from(bytes, cs.subrange(i + 1, n as int), c.target.end as int));
            if i + 1 < n {
                assert(cs[i as int].target.end < cs[i + 1].target.start);
            }
            last_end = c.target.end;
            i += 1;
        }
        push_rest(&mut result, text, last_end);
        assert(cs.subrange(n as int, n as int).len() == 0);
        result
    }
}

/// The union of all captures of one import match.
pub open spec fn block_of(m: Seq<Capture>) -> Span
    decreases m.len(),
{
    if m.len() == 0 {
        Span { start: usize::MAX, end: 0 }
    } else {
        let c = m.last();
        widen(block_of(m.drop_last()), c.start, c.end)
    }
}

/// The non-empty import blocks of a list of import matches, in match order;
/// `None` when a block is not a valid range of `text`.
pub open spec fn import_blocks_spec(text: Seq<u8>, ms: Seq<Seq<Capture>>) -> Option<Seq<Span>>
    decreases ms.len(),
{
    if ms.len() == 0 {
        Some(seq![])
    } else {
        match import_blocks_spec(text, ms.drop_last()) {
            None => None,
            Some(prev) => {
                let b = block_of(ms.last());
                if b.start >= b.end {
                    Some(prev)
                } else if valid_range(text, b.start as int, b.end as int) {
                    Some(prev.push(b))
                } else {
                    None
                }
            },
        }
    }
}

proof fn lemma_import_blocks_none_extends(text: Seq<u8>, ms: Seq<Seq<Capture>>, k: int, j: int)
    requires
        0 <= k <= j <= ms.len(),
        import_blocks_spec(text, ms.subrange(0, k)) is None,
    ensures
        import_blocks_spec(text, ms.subrange(0, j)) is None,
    decreases j - k,
{
    if j > k {
        lemma_import_blocks_none_extends(text, ms, k, j - 1);
        assert(ms.subrange(0, j).drop_last() =~= ms.subrange(0, j - 1));
    }
}

/// The import blocks of the matches of an import query over `text`.
pub fn import_blocks(text: &str, matches: &Vec<Vec<Capture>>) -> (r: Result<Vec<Span>, ExtractError>)
    ensures
        match import_blocks_spec(text.spec_bytes(), matches_view(matches@)) {
            None => r == Err::<Vec<Span>, ExtractError>(ExtractError::MalformedMatch),
            Some(bs) => r is Ok && r->Ok_0@ == bs,
        },
        r is Ok ==> forall|k: int|
            0 <= k < r->Ok_0@.len() ==> valid_range(
                text.spec_bytes(),
                (#[trigger] r->Ok_0@[k]).start as int,
                r->Ok_0@[k].end as int,
            ),
{
    let ghost bytes = text.spec_bytes();
    let ghost mv = matches_view(matches@);
    let mut out: Vec<Span> = Vec::new();
    let mut i: usize = 0;
    while i < matches.len()
        invariant
            i <= matches@.len(),
            bytes == text.spec_bytes(),
            mv == matches_view(matches@),
            import_blocks_spec(bytes, mv.subrange(0, i as int)) == Some(out@),
            forall|k: int| 0 <= k < out@.len() ==> valid_range(bytes, (#[trigger] out@[k]).start as int, out@[k].end as int),
        decreases matches@.len() - i,
    {
        assert(mv.subrange(0, i + 1).drop_last() =~= mv.subrange(0, i as int));
        assert(mv.subrange(0, i + 1).last() == matches@[i as int]@);
        let m = &matches[i];
        let mut b = Span { start: usize::MAX, end: 0 };
        let mut q: usize = 0;
        while q < m.len()
            invariant
                q <= m@.len(),
                b == block_of(m@.subrange(0, q as int)),
            decreases m@.len() - q,
        {
            assert(m@.subrange(0, q + 1).drop_last() =~= m@.subrange(0, q as int));
            let c = m[q];
            b = Span {
                start: if c.start < b.start { c.start } else { b.start },
                end: if c.end > b.end { c.end } else { b.end },
            };
            q += 1;
        }
        assert(m@.subrange(0, m@.len() as int) =~= m@);
        if b.start < b.end {
            if !is_valid_range(text, b.start, b.end) {
                proof {
                    assert forall|j: int| i + 1 <= j <= mv.len() implies import_blocks_spec(
                        bytes,
                        mv.subrange(0, j),
                    ) is None by {
                        lemma_import_blocks_none_extends(bytes, mv, i + 1, j);
                    }
                    assert(mv.subrange(0, mv.len() as int) =~= mv);
                }
                return Err(ExtractError::MalformedMatch);
            }
            out.push(b);
        }
        i += 1;
    }
    assert(mv.subrange(0, mv.len() as int) =~= mv);
    Ok(out)
}

proof fn lemma_candidates_ok(
    text: Seq<u8>,
    records: Seq<(Seq<Seq<char>>, Span, Span)>,
    blocks: Seq<Span>,
    important: Seq<Seq<Seq<char>>>,
)
    requires
        records_in_text(text, records),
        forall|k: int| 0 <= k < blocks.len() ==> valid_range(text, (#[trigger] blocks[k]).start as int, blocks[k].end as int),
    ensures
        forall|i: int|
            0 <= i < candidate_actions(records, blocks, important).len() ==> collapse_ok(
                text,
                #[trigger] candidate_actions(records, blocks, important)[i],
            ),
{
    lemma_import_actions_ok(text, blocks);
    lemma_symbol_actions_ok(text, records, important);
    let a = import_actions(blocks);
    let b = symbol_actions(records, important);
    assert forall|i: int| 0 <= i < (a + b).len() implies collapse_ok(text, #[trigger] (a + b)[i]) by {
        if i < a.len() {
            assert((a + b)[i] == a[i]);
        } else {
            assert((a + b)[i] == b[i - a.len()]);
        }
    }
}

proof fn lemma_import_actions_ok(text: Seq<u8>, blocks: Seq<Span>)
    requires
        forall|k: int| 0 <= k < blocks.len() ==> valid_range(text, (#[trigger] blocks[k]).start as int, blocks[k].end as int),
    ensures
        forall|i: int| 0 <= i < import_actions(blocks).len() ==> collapse_ok(text, #[trigger] import_actions(blocks)[i]),
    decreases blocks.len(),
{
    if blocks.len() > 0 {
        let prev = blocks.drop_last();
        assert forall|k: int| 0 <= k < prev.len() implies valid_range(text, (#[trigger] prev[k]).start as int, prev[k].end as int) by {
            assert(prev[k] == blocks[k]);
        }
        lemma_import_actions_ok(text, prev);
        assert(valid_range(text, blocks[blocks.len() - 1].start as int, blocks[blocks.len() - 1].end as int));
        let pa = import_actions(prev);
        let a = import_actions(blocks);
        assert forall|i: int| 0 <= i < a.len() implies collapse_ok(text, #[trigger] a[i]) by {
            if i < pa.len() {
                assert(a[i] == pa[i]);
            }
        }
    }
}

proof fn lemma_symbol_actions_ok(
    text: Seq<u8>,
    records: Seq<(Seq<Seq<char>>, Span, Span)>,
    important: Seq<Seq<Seq<char>>>,
)
    requires
        records_in_text(text, records),
    ensures
        forall|i: int|
            0 <= i < symbol_actions(records, important).len() ==> collapse_ok(
                text,
                #[trigger] symbol_actions(records, important)[i],
            ),
    decreases records.len(),
{
    if records.len() > 0 {
        let prev = records.drop_last();
        assert(records_in_text(text, prev)) by {
            assert forall|k: int| 0 <= k < prev.len() implies {
                &&& valid_range(text, (#[trigger] prev[k]).1.start as int, prev[k].1.end as int)
                &&& valid_range(text, prev[k].2.start as int, prev[k].2.end as int)
            } by {
                assert(prev[k] == records[k]);
            }
        }
        lemma_symbol_actions_ok(text, prev, important);
        let last = records[records.len() - 1];
        assert(valid_range(text, last.1.start as int, last.1.end as int));
        assert(valid_range(text, last.2.start as int, last.2.end as int));
        let pa = symbol_actions(prev, important);
        let a = symbol_actions(records, important);
        assert forall|i: int| 0 <= i < a.len() implies collapse_ok(text, #[trigger] a[i]) by {
            if i < pa.len() {
                assert(a[i] == pa[i]);
            }
        }
    }
}

/// The collapsed document of `text` from the results of the two queries: the
/// symbol records are extracted and nested, then the collapses are planned
/// against `important`.
pub fn plan_document<'a>(
    text: &'a str,
    labels: CaptureLabels,
    symbol_matches: &Vec<Vec<Capture>>,
    import_matches: &Vec<Vec<Capture>>,
    important: &Vec<Symbol>,
) -> (r: Result<CollapsedDocument<'a>, ExtractError>)
    ensures
        match (
            records_spec(text.spec_bytes(), labels, matches_view(symbol_matches@)),
            import_blocks_spec(text.spec_bytes(), matches_view(import_matches@)),
        ) {
            (Some(recs), Some(blocks)) => r matches Ok(d) && d.original() == text.spec_bytes()
                && d.well_formed() && exists|nrecs: Seq<(Seq<Seq<char>>, Span, Span)>|
                is_nesting(recs, nrecs) && is_plan(
                    candidate_actions(nrecs, blocks, symbols_view(important@)),
                    d.collapses(),
                ),
            _ => r == Err::<CollapsedDocument<'a>, ExtractError>(ExtractError::MalformedMatch),
        },
{
    let records = records_from_matches(text, labels, symbol_matches)?;
    let blocks = import_blocks(text, import_matches)?;
    let ghost recs = records_view(records@);
    let nested_records = process_symbols(records);
    let collapses = plan_collapses(&nested_records, &blocks, important);
    let ghost bytes = text.spec_bytes();
    let ghost cands = candidate_actions(records_view(nested_records@), blocks@, symbols_view(important@));
    proof {
        lemma_nesting_in_text(bytes, recs, records_view(nested_records@));
        lemma_candidates_ok(bytes, records_view(nested_records@), blocks@, symbols_view(important@));
        lemma_plan_well_formed(bytes, cands, collapses@);
    }
    let d = CollapsedDocument { original_document: text, collapses };
    assert(is_nesting(recs, records_view(nested_records@)));
    Ok(d)
}

} // verus!
