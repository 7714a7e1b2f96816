use vstd::prelude::*;
use vstd::string::*;

use crate::collapse::{Collapse, CollapseReplacement, CollapsedDocument, collapse_ok, collapses_well_formed};
use crate::text::{
    indent_of, lemma_trim_start_suffix, lines_spec, push_range, slice_chars, slice_range,
    split_lines, trim_spec, trim_start_str, trim_str,
};

verus! {

broadcast use vstd::string::group_string_axioms;

/// Why an edited collapsed text could not be expanded.
#[derive(Debug)]
pub enum ReconcileError {
    /// A line ends in `...` but its text (here, without the `...`) matches no
    /// remaining placeholder.
    UnmatchedPlaceholder { line: String },
}

/// The line ends in the ellipsis marker `...`.
pub open spec fn ends_with_marker(l: Seq<char>) -> bool {
    l.len() >= 3 && l.subrange(l.len() - 3, l.len() as int) == seq!['.', '.', '.']
}

/// The text that a placeholder line of `c` holds once its marker is stripped
/// and it is trimmed.
pub open spec fn key_of(text: Seq<u8>, c: Collapse) -> Seq<char> {
    match c.replacement {
        CollapseReplacement::Range(r) => slice_chars(text, r.start as int, r.end as int),
        CollapseReplacement::Imports => seq!['u', 's', 'e'],
    }
}

/// `i` is the first collapse of `pool` whose key is `key`.
pub open spec fn is_first_match(text: Seq<u8>, pool: Seq<Collapse>, key: Seq<char>, i: int) -> bool {
    &&& 0 <= i < pool.len()
    &&& key_of(text, pool[i]) == key
    &&& forall|j: int| 0 <= j < i ==> key_of(text, pool[j]) != key
}

pub open spec fn first_match(text: Seq<u8>, pool: Seq<Collapse>, key: Seq<char>) -> Option<int> {
    if exists|i: int| is_first_match(text, pool, key, i) {
        Some(choose|i: int| is_first_match(text, pool, key, i))
    } else {
        None
    }
}

pub open spec fn prepend(a: Seq<char>, r: Result<Seq<char>, Seq<char>>) -> Result<Seq<char>, Seq<char>> {
    match r {
        Ok(x) => Ok(a + x),
        Err(e) => Err(e),
    }
}

/// Expands `lines` against the unused collapses `pool` of `text`: a line without
/// the marker is kept; a line with it is replaced by its indentation and the
/// original target of the first unused collapse whose key equals the line's
/// trimmed text, which is then used up. Every line is followed by a line feed.
/// `Err` holds the marker-less text of the first line that matches nothing.
pub open spec fn reconcile_lines(text: Seq<u8>, pool: Seq<Collapse>, lines: Seq<Seq<char>>) -> Result<
    Seq<char>,
    Seq<char>,
>
    decreases lines.len(),
{
    if lines.len() == 0 {
        Ok(seq![])
    } else {
        let l = lines[0];
        let rest = lines.drop_first();
        if !ends_with_marker(l) {
            prepend(l + seq!['\n'], reconcile_lines(text, pool, rest))
        } else {
            let p = l.subrange(0, l.len() - 3);
            match first_match(text, pool, trim_spec(p)) {
                None => Err(p),
                Some(i) => prepend(
                    indent_of(p) + slice_chars(
                        text,
                        pool[i].target.start as int,
                        pool[i].target.end as int,
                    ) + seq!['\n'],
                    reconcile_lines(text, pool.remove(i), rest),
                ),
            }
        }
    }
}

/// The expansion of an edited text: its lines reconciled, without the line feed
/// after the last line when the edited text does not end with one.
pub open spec fn uncollapse_spec(text: Seq<u8>, pool: Seq<Collapse>, edited: Seq<char>) -> Result<
    Seq<char>,
    Seq<char>,
> {
    match reconcile_lines(text, pool, lines_spec(edited)) {
        Ok(x) => if edited.len() > 0 && edited.last() != '\n' {
            Ok(x.drop_last())
        } else {
            Ok(x)
        },
        Err(e) => Err(e),
    }
}

/// A non-empty text has at least one line.
proof fn lemma_lines_nonempty(s: Seq<char>)
    requires
        s.len() > 0,
    ensures
        lines_spec(s).len() > 0,
{
}

/// Every reconciled line ends with a line feed.
proof fn lemma_reconciled_ends_with_newline(text: Seq<u8>, pool: Seq<Collapse>, lines: Seq<Seq<char>>)
    requires
        lines.len() > 0,
        reconcile_lines(text, pool, lines) is Ok,
    ensures
        ({
            let x = reconcile_lines(text, pool, lines)->Ok_0;
            x.len() > 0 && x.last() == '\n'
        }),
    decreases lines.len(),
{
    let l = lines[0];
    let rest = lines.drop_first();
    let (piece, next_pool) = if !ends_with_marker(l) {
        (l + seq!['\n'], pool)
    } else {
        let p = l.subrange(0, l.len() - 3);
        let i = first_match(text, pool, trim_spec(p))->Some_0;
        (
            indent_of(p) + slice_chars(text, pool[i].target.start as int, pool[i].target.end as int)
                + seq!['\n'],
            pool.remove(i),
        )
    };
    assert(reconcile_lines(text, pool, lines) == prepend(piece, reconcile_lines(text, next_pool, rest)));
    let y = reconcile_lines(text, next_pool, rest)->Ok_0;
    if rest.len() > 0 {
        lemma_reconciled_ends_with_newline(text, next_pool, rest);
        assert((piece + y).last() == y.last());
    } else {
        assert(y.len() == 0);
        assert((piece + y).last() == piece.last());
    }
}

/// A marked line whose text matches the key of no collapse at all makes the
/// expansion fail, whatever lines come before it.
pub proof fn lemma_unknown_placeholder_fails(
    text: Seq<u8>,
    pool: Seq<Collapse>,
    lines: Seq<Seq<char>>,
    k: int,
)
    requires
        0 <= k < lines.len(),
        ends_with_marker(lines[k]),
        forall|j: int|
            0 <= j < pool.len() ==> key_of(text, #[trigger] pool[j]) != trim_spec(
                lines[k].subrange(0, lines[k].len() - 3),
            ),
    ensures
        reconcile_lines(text, pool, lines) is Err,
    decreases k,
{
    let l = lines[0];
    let rest = lines.drop_first();
    if k == 0 {
        let p = l.subrange(0, l.len() - 3);
        assert(!exists|i: int| is_first_match(text, pool, trim_spec(p), i));
    } else {
        assert(rest[k - 1] == lines[k]);
        if !ends_with_marker(l) {
            lemma_unknown_placeholder_fails(text, pool, rest, k - 1);
        } else {
            let p = l.subrange(0, l.len() - 3);
            if let Some(i) = first_match(text, pool, trim_spec(p)) {
                let next = pool.remove(i);
                assert forall|j: int| 0 <= j < next.len() implies key_of(text, #[trigger] next[j]) != trim_spec(
                    lines[k].subrange(0, lines[k].len() - 3),
                ) by {
                    if j < i {
                        assert(next[j] == pool[j]);
                    } else {
                        assert(next[j] == pool[j + 1]);
                    }
                }
                lemma_unknown_placeholder_fails(text, next, rest, k - 1);
            }
        }
    }
}

fn has_marker(l: &str) -> (r: bool)
    ensures
        r == ends_with_marker(l@),
{
    let n = l.unicode_len();
    if n < 3 {
        return false;
    }
    let a = l.get_char(n - 3);
    let b = l.get_char(n - 2);
    let c = l.get_char(n - 1);
    let r = a == '.' && b == '.' && c == '.';
    assert(r == (l@.subrange(n - 3, n as int) =~= seq!['.', '.', '.']));
    r
}

fn same_text(a: &String, b: &String) -> (r: bool)
    ensures
        r == (a@ == b@),
{
    *a == *b
}

proof fn lemma_prepend_assoc(a: Seq<char>, b: Seq<char>, r: Result<Seq<char>, Seq<char>>)
    ensures
        prepend(a, prepend(b, r)) == prepend(a + b, r),
{
    if let Ok(x) = r {
        assert(a + (b + x) =~= (a + b) + x);
    }
}

/// The placeholder key of a collapse, as a string.
fn key_string(text: &str, c: Collapse) -> (r: String)
    requires
        collapse_ok(text.spec_bytes(), c),
    ensures
        r@ == key_of(text.spec_bytes(), c),
{
    match c.replacement {
        CollapseReplacement::Range(r) => slice_range(text, r.start, r.end).to_owned(),
        CollapseReplacement::Imports => {
            proof {
                reveal_strlit("use");
            }
            let k = "use".to_owned();
            assert(k@ =~= seq!['u', 's', 'e']);
            k
        },
    }
}

impl<'a> CollapsedDocument<'a> {
    /// Expands an edited collapsed text: each line that ends in `...` is
    /// matched by its trimmed text to the first unused placeholder and replaced
    /// by that placeholder's original text, after the line's indentation; other
    /// lines are kept. Every output line ends with a line feed. A marked line
    /// that matches no unused placeholder is an error that carries its text.
    pub fn uncollapse_document(&self, new_collapsed: &str) -> (r: Result<String, ReconcileError>)
        ensures
            match uncollapse_spec(self.original(), self.collapses(), new_collapsed@) {
                Ok(x) => r is Ok && r->Ok_0@ == x,
                Err(e) => r matches Err(ReconcileError::UnmatchedPlaceholder { line }) && line@ == e,
            },
    {
        let text = self.original_text();
        let ghost bytes = self.original();
        let lines = split_lines(new_collapsed);
        let ghost lv = lines@.map_values(|l: &str| l@);
        let mut pool: Vec<Collapse> = self.collapses_vec();
        let mut keys: Vec<String> = Vec::new();
        let mut q: usize = 0;
        while q < pool.len()
            invariant
                q <= pool@.len(),
                bytes == text.spec_bytes(),
                collapses_well_formed(bytes, pool@),
                keys@.len() == q,
                forall|j: int| 0 <= j < q ==> (#[trigger] keys@[j])@ == key_of(bytes, pool@[j]),
            decreases pool@.len() - q,
        {
            assert(collapse_ok(bytes, pool@[q as int]));
            keys.push(key_string(text, pool[q]));
            q += 1;
        }
        let ghost goal = reconcile_lines(bytes, pool@, lv);
        let mut result = String::new();
        let mut li: usize = 0;
        assert(lv.subrange(0, lv.len() as int) =~= lv);
        assert(result@ + seq![] =~= result@);
        while li < lines.len()
            invariant
                goal == reconcile_lines(self.original(), self.collapses(), lines_spec(new_collapsed@)),
                li <= lines@.len(),
                lv == lines@.map_values(|l: &str| l@),
                bytes == text.spec_bytes(),
                keys@.len() == pool@.len(),
                forall|j: int| 0 <= j < pool@.len() ==> collapse_ok(bytes, #[trigger] pool@[j]),
                forall|j: int| 0 <= j < pool@.len() ==> (#[trigger] keys@[j])@ == key_of(bytes, pool@[j]),
                goal == prepend(result@, reconcile_lines(bytes, pool@, lv.subrange(li as int, lv.len() as int))),
            decreases lines@.len() - li,
        {
            let l = lines[li];
            let ghost rest = lv.subrange(li as int, lv.len() as int);
            assert(rest[0] == l@);
            assert(rest.drop_first() =~= lv.subrange(li + 1, lv.len() as int));
            let ghost before = result@;
            if !has_marker(l) {
                result.append(l);
                result.append("\n");
                proof {
                    reveal_strlit("\n");
                }
                assert(result@ =~= before + (l@ + seq!['\n']));
                proof {
                    lemma_prepend_assoc(before, l@ + seq!['\n'], reconcile_lines(bytes, pool@, rest.drop_first()));
                }
            } else {
                let n = l.unicode_len();
                let p = l.substring_char(0, n - 3);
                let trimmed = trim_str(p).to_owned();
                let mut i: usize = 0;
                while i < keys.len() && !same_text(&keys[i], &trimmed)
                    invariant
                        goal == reconcile_lines(self.original(), self.collapses(), lines_spec(new_collapsed@)),
                        trimmed@ == trim_spec(p@),
                        i <= keys@.len(),
                        keys@.len() == pool@.len(),
                        forall|j: int| 0 <= j < pool@.len() ==> (#[trigger] keys@[j])@ == key_of(bytes, pool@[j]),
                        forall|j: int| 0 <= j < i ==> key_of(bytes, pool@[j]) != trim_spec(p@),
                    decreases keys@.len() - i,
                {
                    i += 1;
                }
                assert(trimmed@ == trim_spec(p@));
                assert(p@ == l@.subrange(0, l@.len() - 3));
                if i == keys.len() {
                    proof {
                        assert(!exists|j: int| is_first_match(bytes, pool@, trim_spec(p@), j));
                        assert(reconcile_lines(bytes, pool@, rest) == Err::<Seq<char>, Seq<char>>(p@));
                    }
                    let line = p.to_owned();
                    assert(line@ == p@);
                    assert(goal == Err::<Seq<char>, Seq<char>>(p@));
                    return Err(ReconcileError::UnmatchedPlaceholder { line });
                }
                proof {
                    assert(is_first_match(bytes, pool@, trim_spec(p@), i as int));
                    assert forall|j: int| is_first_match(bytes, pool@, trim_spec(p@), j) implies j == i by {
                        if j < i {
                        } else if j > i {
                            assert(key_of(bytes, pool@[i as int]) == trim_spec(p@));
                        }
                    }
                    lemma_trim_start_suffix(p@);
                }
                let rest_of_line = trim_start_str(p);
                let indent_len = n - 3 - rest_of_line.unicode_len();
                let indent = p.substring_char(0, indent_len);
                assert(indent@ == indent_of(p@));
                let c = pool[i];
                assert(collapse_ok(bytes, c));
                let ghost old_pool = pool@;
                let ghost piece = indent_of(p@) + slice_chars(bytes, c.target.start as int, c.target.end as int) + seq!['\n'];
                assert(reconcile_lines(bytes, pool@, rest) == prepend(piece, reconcile_lines(bytes, pool@.remove(i as int), rest.drop_first())));
                proof {
                    lemma_prepend_assoc(before, piece, reconcile_lines(bytes, pool@.remove(i as int), rest.drop_first()));
                }
                let ghost old_keys = keys@;
                result.append(indent);
                push_range(&mut result, text, c.target.start, c.target.end);
                result.append("\n");
                proof {
                    reveal_strlit("\n");
                }
                assert(result@ =~= before + (indent_of(p@) + slice_chars(bytes, c.target.start as int, c.target.end as int) + seq!['\n']));
                pool.remove(i);
                keys.remove(i);
                assert(pool@ == old_pool.remove(i as int));
                assert forall|j: int| 0 <= j < pool@.len() implies collapse_ok(bytes, #[trigger] pool@[j]) by {
                    if j < i {
                        assert(pool@[j] == old_pool[j]);
                    } else {
                        assert(pool@[j] == old_pool[j + 1]);
                    }
                }
                assert forall|j: int| 0 <= j < pool@.len() implies (#[trigger] keys@[j])@ == key_of(bytes, pool@[j]) by {
                    if j < i {
                        assert(keys@[j] == old_keys[j]);
                        assert(pool@[j] == old_pool[j]);
                    } else {
                        assert(keys@[j] == old_keys[j + 1]);
                        assert(pool@[j] == old_pool[j + 1]);
                    }
                }
            }
            li += 1;
        }
        assert(lv.subrange(li as int, lv.len() as int).len() == 0);
        assert(result@ + seq![] =~= result@);
        let n = new_collapsed.unicode_len();
        if n > 0 && new_collapsed.get_char(n - 1) != '\n' {
            proof {
                lemma_lines_nonempty(new_collapsed@);
                lemma_reconciled_ends_with_newline(bytes, self.collapses(), lv);
            }
            let m = result.unicode_len();
            let trimmed = result.as_str().substring_char(0, m - 1).to_owned();
            return Ok(trimmed);
        }
        Ok(result)
    }
}

} // verus!
