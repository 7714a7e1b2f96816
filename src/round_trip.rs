use vstd::prelude::*;

use crate::collapse::{collapse_ok, collapses_well_formed, lemma_render_step, placeholder, render_from, rendered, Collapse};
use crate::reconcile::{uncollapse_spec, ends_with_marker, first_match, is_first_match, key_of, prepend, reconcile_lines};
use vstd::utf8::{encode_utf8, encode_utf8_decode_utf8, encode_utf8_valid_utf8, valid_utf8};
use crate::text::{first_newline, indent_of, is_white_space, lines_spec, slice_chars, strip_cr, trim_end_spec, trim_spec, trim_start_spec, valid_range};

verus! {

/// No line feed of `s` has a carriage return right before it.
pub open spec fn no_crlf(s: Seq<char>) -> bool {
    forall|k: int| 0 < k < s.len() && #[trigger] s[k] == '\n' ==> s[k - 1] != '\r'
}

/// No line that ends with a line feed inside `s` ends with the marker `...`.
pub open spec fn no_marked_line(s: Seq<char>) -> bool {
    forall|k: int|
        3 <= k < s.len() && #[trigger] s[k] == '\n' ==> !(s[k - 3] == '.' && s[k - 2] == '.' && s[k - 1] == '.')
}

/// `s` is empty or ends with a line feed.
pub open spec fn complete_lines(s: Seq<char>) -> bool {
    s.len() == 0 || s.last() == '\n'
}

/// Where the last, unterminated line of `s` starts.
pub open spec fn last_line_start(s: Seq<char>) -> int
    decreases s.len(),
{
    if s.len() == 0 {
        0
    } else if s.last() == '\n' {
        s.len() as int
    } else {
        last_line_start(s.drop_last())
    }
}

/// Every character of `s` is white space other than a line feed.
pub open spec fn is_indent(s: Seq<char>) -> bool {
    forall|k: int| 0 <= k < s.len() ==> is_white_space(s[k]) && s[k] != '\n'
}

/// A placeholder key that reads back unchanged from its line: not empty, no
/// line feed, no white space at either end.
pub open spec fn clean_key(k: Seq<char>) -> bool {
    &&& k.len() > 0
    &&& !is_white_space(k[0])
    &&& !is_white_space(k.last())
    &&& forall|j: int| 0 <= j < k.len() ==> k[j] != '\n'
}

/// Where the text between collapses `i - 1` and `i` starts.
pub open spec fn seg_start(cs: Seq<Collapse>, i: int) -> int {
    if i == 0 {
        0
    } else {
        cs[i - 1].target.end as int
    }
}

/// The text kept between collapse `i - 1` and collapse `i` (or the end).
pub open spec fn segment(text: Seq<u8>, cs: Seq<Collapse>, i: int) -> Seq<char> {
    if i < cs.len() {
        slice_chars(text, seg_start(cs, i), cs[i].target.start as int)
    } else {
        slice_chars(text, seg_start(cs, i), text.len() as int)
    }
}

/// Each placeholder sits alone on its line, after indentation only, and reads
/// back as its key; the kept text has no `\r\n` and no line ending in `...`.
pub open spec fn line_aligned(text: Seq<u8>, cs: Seq<Collapse>) -> bool {
    &&& forall|i: int| 0 <= i <= cs.len() ==> no_crlf(#[trigger] segment(text, cs, i))
    &&& forall|i: int| 0 <= i <= cs.len() ==> no_marked_line(#[trigger] segment(text, cs, i))
    &&& forall|i: int|
        0 < i < cs.len() ==> (#[trigger] segment(text, cs, i)).len() > 0 && segment(text, cs, i)[0] == '\n'
    &&& cs.len() > 0 ==> segment(text, cs, cs.len() as int).len() == 0 || segment(text, cs, cs.len() as int)[0] == '\n'
    &&& forall|i: int|
        0 <= i < cs.len() ==> is_indent(
            (#[trigger] segment(text, cs, i)).subrange(
                last_line_start(segment(text, cs, i)),
                segment(text, cs, i).len() as int,
            ),
        )
    &&& forall|i: int| 0 <= i < cs.len() ==> clean_key(key_of(text, #[trigger] cs[i]))
    &&& !ends_with_marker(last_line(segment(text, cs, cs.len() as int)))
}

proof fn lemma_first_newline_unique(s: Seq<char>, i: int, j: int)
    requires
        first_newline(s, i),
        first_newline(s, j),
    ensures
        i == j,
{
    if i < j {
        assert(s[i] == '\n');
    } else if j < i {
        assert(s[j] == '\n');
    }
}

proof fn lemma_first_newline_exists(s: Seq<char>, k: int)
    requires
        0 <= k < s.len(),
        s[k] == '\n',
    ensures
        exists|i: int| first_newline(s, i),
    decreases k,
{
    if exists|j: int| 0 <= j < k && s[j] == '\n' {
        let j = choose|j: int| 0 <= j < k && s[j] == '\n';
        lemma_first_newline_exists(s, j);
    } else {
        assert(first_newline(s, k));
    }
}

/// The lines of `s` from its first line feed `i` on.
proof fn lemma_lines_unfold(s: Seq<char>, i: int)
    requires
        first_newline(s, i),
    ensures
        lines_spec(s) == seq![strip_cr(s.subrange(0, i))] + lines_spec(s.subrange(i + 1, s.len() as int)),
{
    let j = choose|j: int| first_newline(s, j);
    lemma_first_newline_unique(s, i, j);
}

/// Splitting after a line feed splits the lines.
proof fn lemma_lines_concat(x: Seq<char>, y: Seq<char>)
    requires
        complete_lines(x),
    ensures
        lines_spec(x + y) == lines_spec(x) + lines_spec(y),
    decreases x.len(),
{
    if x.len() == 0 {
        assert(x + y =~= y);
        assert(lines_spec(x) =~= Seq::<Seq<char>>::empty());
        assert(lines_spec(x) + lines_spec(y) =~= lines_spec(y));
    } else {
        lemma_first_newline_exists(x, x.len() - 1);
        let i = choose|i: int| first_newline(x, i);
        let xy = x + y;
        assert(first_newline(xy, i)) by {
            assert forall|j: int| 0 <= j < i implies xy[j] != '\n' by {
                assert(xy[j] == x[j]);
            }
        }
        lemma_lines_unfold(x, i);
        lemma_lines_unfold(xy, i);
        let rest = x.subrange(i + 1, x.len() as int);
        assert(xy.subrange(0, i) =~= x.subrange(0, i));
        assert(xy.subrange(i + 1, xy.len() as int) =~= rest + y);
        assert(complete_lines(rest)) by {
            if rest.len() > 0 {
                assert(rest.last() == x.last());
            }
        }
        lemma_lines_concat(rest, y);
        assert(lines_spec(xy) =~= lines_spec(x) + lines_spec(y));
    }
}

/// One line followed by a line feed.
proof fn lemma_lines_single(l: Seq<char>, y: Seq<char>)
    requires
        forall|j: int| 0 <= j < l.len() ==> l[j] != '\n',
        l.len() == 0 || l.last() != '\r',
    ensures
        lines_spec(l + seq!['\n'] + y) == seq![l] + lines_spec(y),
{
    let x = l + seq!['\n'];
    assert(first_newline(x, l.len() as int));
    lemma_lines_unfold(x, l.len() as int);
    assert(x.subrange(0, l.len() as int) =~= l);
    assert(x.subrange(l.len() as int + 1, x.len() as int) =~= Seq::<char>::empty());
    assert(lines_spec(Seq::<char>::empty()) =~= Seq::<Seq<char>>::empty());
    assert(lines_spec(x) =~= seq![l]);
    lemma_lines_concat(x, y);
}

proof fn lemma_prepend_empty(r: Result<Seq<char>, Seq<char>>)
    ensures
        prepend(Seq::empty(), r) == r,
{
    if let Ok(x) = r {
        assert(Seq::<char>::empty() + x =~= x);
    }
}

proof fn lemma_prepend_twice(a: Seq<char>, b: Seq<char>, r: Result<Seq<char>, Seq<char>>)
    ensures
        prepend(a, prepend(b, r)) == prepend(a + b, r),
{
    if let Ok(x) = r {
        assert(a + (b + x) =~= (a + b) + x);
    }
}

/// Plain lines pass through reconciliation unchanged.
proof fn lemma_reconcile_plain(text: Seq<u8>, pool: Seq<Collapse>, h: Seq<char>, rest: Seq<Seq<char>>)
    requires
        complete_lines(h),
        no_crlf(h),
        no_marked_line(h),
    ensures
        reconcile_lines(text, pool, lines_spec(h) + rest) == prepend(h, reconcile_lines(text, pool, rest)),
    decreases h.len(),
{
    if h.len() == 0 {
        assert(lines_spec(h) =~= Seq::<Seq<char>>::empty());
        assert(lines_spec(h) + rest =~= rest);
        lemma_prepend_empty(reconcile_lines(text, pool, rest));
    } else {
        lemma_first_newline_exists(h, h.len() - 1);
        let i = choose|i: int| first_newline(h, i);
        lemma_lines_unfold(h, i);
        let l = h.subrange(0, i);
        let t = h.subrange(i + 1, h.len() as int);
        assert(strip_cr(l) == l) by {
            if l.len() > 0 {
                assert(h[i] == '\n');
                assert(l.last() == h[i - 1]);
            }
        }
        assert(!ends_with_marker(l)) by {
            if l.len() >= 3 {
                let tail3 = l.subrange(l.len() - 3, l.len() as int);
                assert(tail3[0] == h[i - 3]);
                assert(tail3[1] == h[i - 2]);
                assert(tail3[2] == h[i - 1]);
                assert(h[i] == '\n');
                if tail3 == seq!['.', '.', '.'] {
                    assert(tail3[0] == '.' && tail3[1] == '.' && tail3[2] == '.');
                }
            }
        }
        assert(complete_lines(t)) by {
            if t.len() > 0 {
                assert(t.last() == h.last());
            }
        }
        assert(no_crlf(t)) by {
            assert forall|k: int| 0 < k < t.len() && #[trigger] t[k] == '\n' implies t[k - 1] != '\r' by {
                assert(t[k] == h[k + i + 1]);
                assert(t[k - 1] == h[k + i]);
            }
        }
        assert(no_marked_line(t)) by {
            assert forall|k: int| 3 <= k < t.len() && #[trigger] t[k] == '\n' implies !(t[k - 3] == '.' && t[k - 2] == '.' && t[k - 1] == '.') by {
                assert(t[k] == h[k + i + 1]);
                assert(t[k - 1] == h[k + i]);
                assert(t[k - 2] == h[k + i - 1]);
                assert(t[k - 3] == h[k + i - 2]);
            }
        }
        lemma_reconcile_plain(text, pool, t, rest);
        let all = lines_spec(h) + rest;
        assert(all =~= seq![l] + (lines_spec(t) + rest));
        assert(all[0] == l);
        assert(all.drop_first() =~= lines_spec(t) + rest);
        lemma_prepend_twice(l + seq!['\n'], t, reconcile_lines(text, pool, rest));
        assert(l + seq!['\n'] + t =~= h);
    }
}

proof fn lemma_trim_start_indent(ind: Seq<char>, rest: Seq<char>)
    requires
        is_indent(ind),
    ensures
        trim_start_spec(ind + rest) == trim_start_spec(rest),
    decreases ind.len(),
{
    if ind.len() == 0 {
        assert(ind + rest =~= rest);
    } else {
        let tail = ind.drop_first();
        assert((ind + rest)[0] == ind[0]);
        assert((ind + rest).drop_first() =~= tail + rest);
        assert(is_indent(tail)) by {
            assert forall|k: int| 0 <= k < tail.len() implies is_white_space(tail[k]) && tail[k] != '\n' by {
                assert(tail[k] == ind[k + 1]);
            }
        }
        lemma_trim_start_indent(tail, rest);
    }
}

/// A placeholder line reads back as its key, and the first unused collapse
/// with that key is restored in its place.
proof fn lemma_reconcile_placeholder(
    text: Seq<u8>,
    pool: Seq<Collapse>,
    ind: Seq<char>,
    rest: Seq<Seq<char>>,
)
    requires
        pool.len() > 0,
        is_indent(ind),
        clean_key(key_of(text, pool[0])),
    ensures
        reconcile_lines(text, pool, seq![ind + placeholder(text, pool[0])] + rest) == prepend(
            ind + slice_chars(text, pool[0].target.start as int, pool[0].target.end as int)
                + seq!['\n'],
            reconcile_lines(text, pool.remove(0), rest),
        ),
{
    let c = pool[0];
    let key = key_of(text, c);
    let line = ind + placeholder(text, c);
    assert(placeholder(text, c) =~= key + seq![' ', '.', '.', '.']);
    let all = seq![line] + rest;
    assert(all[0] == line);
    assert(all.drop_first() =~= rest);
    assert(line.subrange(line.len() - 3, line.len() as int) =~= seq!['.', '.', '.']);
    assert(ends_with_marker(line));
    let p = line.subrange(0, line.len() - 3);
    let ks = key + seq![' '];
    assert(p =~= ind + ks);
    lemma_trim_start_indent(ind, ks);
    assert(ks[0] == key[0]);
    assert(trim_start_spec(ks) == ks);
    assert(is_white_space(ks.last()));
    assert(ks.drop_last() =~= key);
    assert(trim_end_spec(ks) == trim_end_spec(key));
    assert(trim_end_spec(key) == key);
    assert(trim_spec(p) == key);
    assert(indent_of(p) =~= ind);
    assert(is_first_match(text, pool, key, 0));
    assert forall|j: int| is_first_match(text, pool, key, j) implies j == 0 by {
        if j > 0 {
            assert(key_of(text, pool[0]) == key);
        }
    }
    assert(first_match(text, pool, key) == Some(0int));
}

proof fn lemma_last_line_start(s: Seq<char>)
    ensures
        0 <= last_line_start(s) <= s.len(),
        last_line_start(s) == 0 || s[last_line_start(s) - 1] == '\n',
        forall|k: int| 0 <= k < s.len() && #[trigger] s[k] == '\n' ==> k < last_line_start(s),
    decreases s.len(),
{
    if s.len() > 0 && s.last() != '\n' {
        lemma_last_line_start(s.drop_last());
        assert forall|k: int| 0 <= k < s.len() && s[k] == '\n' implies k < last_line_start(s) by {
            assert(k < s.len() - 1);
            assert(s.drop_last()[k] == s[k]);
        }
    }
}

/// A piece of clean text is clean.
proof fn lemma_sub_clean(s: Seq<char>, a: int, b: int)
    requires
        0 <= a <= b <= s.len(),
        no_crlf(s),
        no_marked_line(s),
    ensures
        no_crlf(s.subrange(a, b)),
        no_marked_line(s.subrange(a, b)),
{
    let t = s.subrange(a, b);
    assert forall|k: int| 0 < k < t.len() && #[trigger] t[k] == '\n' implies t[k - 1] != '\r' by {
        assert(t[k] == s[k + a]);
        assert(t[k - 1] == s[k + a - 1]);
    }
    assert forall|k: int| 3 <= k < t.len() && #[trigger] t[k] == '\n' implies !(t[k - 3] == '.' && t[k - 2] == '.' && t[k - 1] == '.') by {
        assert(t[k] == s[k + a]);
        assert(t[k - 1] == s[k + a - 1]);
        assert(t[k - 2] == s[k + a - 2]);
        assert(t[k - 3] == s[k + a - 3]);
    }
}

/// The collapsed text from collapse `i` on, without the line feed that ends
/// the previous placeholder line.
pub open spec fn rendered_rest(text: Seq<u8>, cs: Seq<Collapse>, i: int) -> Seq<char> {
    let a = render_from(text, cs.subrange(i, cs.len() as int), seg_start(cs, i));
    if i == 0 {
        a
    } else {
        a.drop_first()
    }
}

/// The original text from collapse `i` on, likewise.
pub open spec fn original_rest(text: Seq<u8>, cs: Seq<Collapse>, i: int) -> Seq<char> {
    let b = slice_chars(text, seg_start(cs, i), text.len() as int);
    if i == 0 {
        b
    } else {
        b.drop_first()
    }
}

/// The plain lines of segment `i`: up to its last line, without the line feed
/// that ends the previous placeholder line.
pub open spec fn head_lines(g: Seq<char>, i: int) -> Seq<char> {
    g.subrange(if i == 0 { 0 } else { 1 }, last_line_start(g))
}

/// The last, unterminated line of `g`: the indentation before a placeholder,
/// or the final line of the text.
pub open spec fn last_line(g: Seq<char>) -> Seq<char> {
    g.subrange(last_line_start(g), g.len() as int)
}

/// What line alignment says of segment `i` and collapse `i`.
pub open spec fn aligned_at(text: Seq<u8>, cs: Seq<Collapse>, i: int) -> bool {
    let g = segment(text, cs, i);
    &&& no_crlf(g)
    &&& no_marked_line(g)
    &&& 0 < i < cs.len() ==> g.len() > 0 && g[0] == '\n'
    &&& 0 < i == cs.len() ==> g.len() == 0 || g[0] == '\n'
    &&& i < cs.len() ==> is_indent(last_line(g)) && clean_key(key_of(text, cs[i]))
    &&& i == cs.len() ==> !ends_with_marker(last_line(g))
}

proof fn lemma_aligned_at(text: Seq<u8>, cs: Seq<Collapse>, i: int)
    requires
        line_aligned(text, cs),
        0 <= i <= cs.len(),
    ensures
        aligned_at(text, cs, i),
{
    assert(no_crlf(segment(text, cs, i)));
    assert(no_marked_line(segment(text, cs, i)));
    if 0 < i < cs.len() {
        assert(segment(text, cs, i).len() > 0);
    }
    if i < cs.len() {
        assert(clean_key(key_of(text, cs[i])));
        assert(is_indent(last_line(segment(text, cs, i))));
    }
}

/// The last collapse reaches the end of the text.
pub open spec fn at_end(text: Seq<u8>, cs: Seq<Collapse>) -> bool {
    cs.len() > 0 && segment(text, cs, cs.len() as int).len() == 0
}

/// A line feed when the text ends with an unterminated line.
pub open spec fn tail_suffix(text: Seq<u8>, cs: Seq<Collapse>) -> Seq<char> {
    if at_end(text, cs) || last_line(segment(text, cs, cs.len() as int)).len() > 0 {
        seq!['\n']
    } else {
        seq![]
    }
}

proof fn lemma_end_case(text: Seq<u8>, cs: Seq<Collapse>)
    requires
        aligned_at(text, cs, cs.len() as int),
        !at_end(text, cs),
    ensures
        reconcile_lines(text, cs.subrange(cs.len() as int, cs.len() as int), lines_spec(rendered_rest(text, cs, cs.len() as int)))
            == Ok::<Seq<char>, Seq<char>>(original_rest(text, cs, cs.len() as int) + tail_suffix(text, cs)),
{
    let n = cs.len() as int;
    let g = segment(text, cs, n);
    let from = seg_start(cs, n);
    let pool = cs.subrange(n, n);
    assert(pool.len() == 0);
    assert(render_from(text, pool, from) == g);
    let e = rendered_rest(text, cs, n);
    lemma_segment_shape(g, n);
    lemma_last_line_start(g);
    let h = head_lines(g, n);
    let l = last_line(g);
    if n > 0 {
        assert(e =~= h + l);
    } else {
        assert(e =~= h + l);
    }
    assert forall|j: int| 0 <= j < l.len() implies l[j] != '\n' by {
        assert(l[j] == g[j + last_line_start(g)]);
    }
    lemma_lines_concat(h, l);
    if l.len() == 0 {
        assert(lines_spec(l) =~= Seq::<Seq<char>>::empty());
        assert(lines_spec(e) =~= lines_spec(h) + Seq::<Seq<char>>::empty());
        lemma_reconcile_plain(text, pool, h, seq![]);
        assert(e =~= h);
        assert(h + Seq::<char>::empty() =~= h);
        assert(e + tail_suffix(text, cs) =~= e);
    } else {
        assert(!exists|i: int| first_newline(l, i));
        assert(lines_spec(l) == seq![l]);
        lemma_reconcile_plain(text, pool, h, seq![l]);
        let one = seq![l];
        assert(one[0] == l);
        assert(one.drop_first() =~= Seq::<Seq<char>>::empty());
        assert(reconcile_lines(text, pool, one) == prepend(l + seq!['\n'], reconcile_lines(text, pool, Seq::<Seq<char>>::empty())));
        assert((l + seq!['\n']) + Seq::<char>::empty() =~= l + seq!['\n']);
        assert(h + (l + seq!['\n']) =~= e + tail_suffix(text, cs));
    }
}

/// Segment `i` is its plain lines and then the indentation.
proof fn lemma_segment_shape(g: Seq<char>, i: int)
    requires
        0 <= i,
        no_crlf(g),
        no_marked_line(g),
        i > 0 ==> g.len() > 0 && g[0] == '\n',
    ensures
        complete_lines(head_lines(g, i)),
        no_crlf(head_lines(g, i)),
        no_marked_line(head_lines(g, i)),
        i == 0 ==> g == head_lines(g, i) + last_line(g),
        i > 0 ==> g == seq!['\n'] + head_lines(g, i) + last_line(g),
{
    lemma_last_line_start(g);
    let lls = last_line_start(g);
    let lo: int = if i == 0 { 0 } else { 1 };
    if i > 0 {
        assert(g[0] == '\n');
        assert(0 < lls);
    }
    lemma_sub_clean(g, lo, lls);
    let h2 = head_lines(g, i);
    assert(complete_lines(h2)) by {
        if h2.len() > 0 {
            assert(h2.last() == g[lls - 1]);
        }
    }
    if i == 0 {
        assert(g =~= h2 + last_line(g));
    } else {
        assert(g[0] == '\n');
        assert(g =~= seq!['\n'] + h2 + last_line(g)) by {
            assert forall|k: int| 0 <= k < g.len() implies g[k] == (seq!['\n'] + h2 + last_line(g))[k] by {
                if k == 0 {
                } else if k < lls {
                    assert(h2[k - 1] == g[k]);
                } else {
                    assert(last_line(g)[k - lls] == g[k]);
                }
            }
        }
    }
}

/// Reconciling a plain head, then one placeholder line, then the rest.
proof fn lemma_reconcile_shape(
    text: Seq<u8>,
    pool: Seq<Collapse>,
    h2: Seq<char>,
    ind: Seq<char>,
    e_next: Seq<char>,
)
    requires
        pool.len() > 0,
        complete_lines(h2),
        no_crlf(h2),
        no_marked_line(h2),
        is_indent(ind),
        clean_key(key_of(text, pool[0])),
    ensures
        reconcile_lines(text, pool, lines_spec(h2 + (ind + placeholder(text, pool[0]) + seq!['\n'] + e_next)))
            == prepend(
            h2 + (ind + slice_chars(text, pool[0].target.start as int, pool[0].target.end as int)
                + seq!['\n']),
            reconcile_lines(text, pool.remove(0), lines_spec(e_next)),
        ),
{
    let c = pool[0];
    let ph = placeholder(text, c);
    let key = key_of(text, c);
    assert(ph =~= key + seq![' ', '.', '.', '.']);
    let line = ind + ph;
    assert forall|j: int| 0 <= j < line.len() implies line[j] != '\n' by {
        if j < ind.len() {
            assert(line[j] == ind[j]);
        } else if j < ind.len() + key.len() {
            assert(line[j] == key[j - ind.len()]);
        } else {
            assert(line[j] == ph[j - ind.len()]);
        }
    }
    assert(line.last() == '.');
    lemma_lines_concat(h2, line + seq!['\n'] + e_next);
    lemma_lines_single(line, e_next);
    lemma_reconcile_plain(text, pool, h2, seq![line] + lines_spec(e_next));
    lemma_reconcile_placeholder(text, pool, ind, lines_spec(e_next));
    let tgt = slice_chars(text, c.target.start as int, c.target.end as int);
    lemma_prepend_twice(h2, ind + tgt + seq!['\n'], reconcile_lines(text, pool.remove(0), lines_spec(e_next)));
}

/// The collapsed rest after collapse `i` starts with the line feed that ends
/// its placeholder line, and so does the original rest.
proof fn lemma_next_starts_line(text: Seq<u8>, cs: Seq<Collapse>, i: int)
    requires
        valid_utf8(text),
        collapses_well_formed(text, cs),
        0 <= i < cs.len(),
        aligned_at(text, cs, i + 1),
        !(i + 1 == cs.len() && at_end(text, cs)),
    ensures
        render_from(text, cs.subrange(i + 1, cs.len() as int), cs[i].target.end as int) =~= seq!['\n']
            + rendered_rest(text, cs, i + 1),
        slice_chars(text, cs[i].target.end as int, text.len() as int) =~= seq!['\n']
            + original_rest(text, cs, i + 1),
{
    let n = cs.len() as int;
    vstd::utf8::is_char_boundary_start_end_of_seq(text);
    assert(collapse_ok(text, cs[i]));
    let g_next = segment(text, cs, i + 1);
    assert(seg_start(cs, i + 1) == cs[i].target.end);
    let a_next = render_from(text, cs.subrange(i + 1, n), cs[i].target.end as int);
    let b_next = slice_chars(text, cs[i].target.end as int, text.len() as int);
    if i + 1 < n {
        let c2 = cs[i + 1];
        assert(collapse_ok(text, c2));
        assert(cs[i].target.end < cs[i + 1].target.start);
        lemma_render_step(text, cs, i + 1, cs[i].target.end as int);
        assert(a_next[0] == g_next[0]);
        crate::text::lemma_slice_concat(text, cs[i].target.end as int, c2.target.start as int, text.len() as int);
        assert(b_next[0] == g_next[0]);
    } else {
        assert(cs.subrange(i + 1, n).len() == 0);
    }
}

/// The collapsed rest at collapse `i`: plain lines, then the placeholder line,
/// then the collapsed rest after it.
proof fn lemma_rendered_rest_shape(text: Seq<u8>, cs: Seq<Collapse>, i: int)
    requires
        valid_utf8(text),
        collapses_well_formed(text, cs),
        0 <= i < cs.len(),
        aligned_at(text, cs, i),
        aligned_at(text, cs, i + 1),
        !(i + 1 == cs.len() && at_end(text, cs)),
    ensures
        rendered_rest(text, cs, i) == head_lines(segment(text, cs, i), i) + (last_line(
            segment(text, cs, i),
        ) + placeholder(text, cs[i]) + seq!['\n'] + rendered_rest(text, cs, i + 1)),
        original_rest(text, cs, i) == head_lines(segment(text, cs, i), i) + (last_line(
            segment(text, cs, i),
        ) + slice_chars(text, cs[i].target.start as int, cs[i].target.end as int) + seq!['\n'])
            + original_rest(text, cs, i + 1),
{
    let n = cs.len() as int;
    vstd::utf8::is_char_boundary_start_end_of_seq(text);
    let c = cs[i];
    let g = segment(text, cs, i);
    let from = seg_start(cs, i);
    assert(collapse_ok(text, c));
    assert(valid_range(text, from, from)) by {
        if i > 0 {
            assert(collapse_ok(text, cs[i - 1]));
            assert(cs[i - 1].target.end < cs[i].target.start);
        }
    }
    lemma_render_step(text, cs, i, from);
    lemma_next_starts_line(text, cs, i);
    lemma_segment_shape(g, i);
    let h2 = head_lines(g, i);
    let ind = last_line(g);
    let ph = placeholder(text, c);
    let a_next = render_from(text, cs.subrange(i + 1, n), c.target.end as int);
    let e = rendered_rest(text, cs, i);
    if i == 0 {
        assert(e =~= g + ph + a_next);
    } else {
        assert(e =~= (g + ph + a_next).drop_first());
    }
    assert(e =~= h2 + (ind + ph + seq!['\n'] + rendered_rest(text, cs, i + 1)));
    let tgt = slice_chars(text, c.target.start as int, c.target.end as int);
    crate::text::lemma_slice_concat(text, from, c.target.start as int, c.target.end as int);
    crate::text::lemma_slice_concat(text, from, c.target.end as int, text.len() as int);
    let b_next = slice_chars(text, c.target.end as int, text.len() as int);
    let b = slice_chars(text, from, text.len() as int);
    assert(b =~= g + tgt + b_next);
    let f = original_rest(text, cs, i);
    if i == 0 {
        assert(f == b);
    } else {
        assert(f =~= b.drop_first());
    }
    assert(f =~= h2 + (ind + tgt + seq!['\n']) + original_rest(text, cs, i + 1));
}

proof fn lemma_round_trip_from(text: Seq<u8>, cs: Seq<Collapse>, i: int)
    requires
        valid_utf8(text),
        collapses_well_formed(text, cs),
        forall|j: int| 0 <= j <= cs.len() ==> aligned_at(text, cs, j),
        0 <= i <= cs.len(),
        !(i == cs.len() && at_end(text, cs)),
    ensures
        reconcile_lines(text, cs.subrange(i, cs.len() as int), lines_spec(rendered_rest(text, cs, i)))
            == Ok::<Seq<char>, Seq<char>>(original_rest(text, cs, i) + tail_suffix(text, cs)),
    decreases cs.len() - i,
{
    let n = cs.len() as int;
    assert(aligned_at(text, cs, i));
    if i == n {
        lemma_end_case(text, cs);
    } else if i + 1 == n && at_end(text, cs) {
        assert(aligned_at(text, cs, i + 1));
        lemma_last_at_end(text, cs);
    } else {
        assert(aligned_at(text, cs, i + 1));
        lemma_round_trip_from(text, cs, i + 1);
        lemma_rendered_rest_shape(text, cs, i);
        let g = segment(text, cs, i);
        lemma_segment_shape(g, i);
        let pool = cs.subrange(i, n);
        assert(pool[0] == cs[i]);
        lemma_reconcile_shape(text, pool, head_lines(g, i), last_line(g), rendered_rest(text, cs, i + 1));
        assert(pool.remove(0) =~= cs.subrange(i + 1, n));
        let piece = head_lines(g, i) + (last_line(g) + slice_chars(text, cs[i].target.start as int, cs[i].target.end as int) + seq!['\n']);
        assert(piece + (original_rest(text, cs, i + 1) + tail_suffix(text, cs)) =~= original_rest(text, cs, i) + tail_suffix(text, cs));
    }
}

/// The last placeholder line, when its collapse reaches the end of the text,
/// is the last line and gets a line feed.
proof fn lemma_last_at_end(text: Seq<u8>, cs: Seq<Collapse>)
    requires
        valid_utf8(text),
        collapses_well_formed(text, cs),
        at_end(text, cs),
        aligned_at(text, cs, cs.len() - 1),
    ensures
        reconcile_lines(text, cs.subrange(cs.len() - 1, cs.len() as int), lines_spec(rendered_rest(text, cs, cs.len() - 1)))
            == Ok::<Seq<char>, Seq<char>>(original_rest(text, cs, cs.len() - 1) + tail_suffix(text, cs)),
{
    let n = cs.len() as int;
    let i = n - 1;
    vstd::utf8::is_char_boundary_start_end_of_seq(text);
    let c = cs[i];
    let g = segment(text, cs, i);
    let from = seg_start(cs, i);
    assert(collapse_ok(text, c));
    assert(valid_range(text, from, from)) by {
        if i > 0 {
            assert(collapse_ok(text, cs[i - 1]));
            assert(cs[i - 1].target.end < cs[i].target.start);
        }
    }
    lemma_render_step(text, cs, i, from);
    assert(cs.subrange(n, n).len() == 0);
    assert(seg_start(cs, n) == c.target.end);
    let a_next = render_from(text, cs.subrange(i + 1, n), c.target.end as int);
    assert(a_next == segment(text, cs, n));
    assert(a_next.len() == 0);
    lemma_segment_shape(g, i);
    let h2 = head_lines(g, i);
    let ind = last_line(g);
    let ph = placeholder(text, c);
    let key = key_of(text, c);
    assert(ph =~= key + seq![' ', '.', '.', '.']);
    let line = ind + ph;
    assert forall|j: int| 0 <= j < line.len() implies line[j] != '\n' by {
        if j < ind.len() {
            assert(line[j] == ind[j]);
        } else if j < ind.len() + key.len() {
            assert(line[j] == key[j - ind.len()]);
        } else {
            assert(line[j] == ph[j - ind.len()]);
        }
    }
    let e = rendered_rest(text, cs, i);
    if i == 0 {
        assert(e =~= h2 + line);
    } else {
        assert(e =~= (g + ph + a_next).drop_first());
        assert(e =~= h2 + line);
    }
    lemma_lines_concat(h2, line);
    assert(!exists|k: int| first_newline(line, k));
    assert(lines_spec(line) == seq![line]);
    let pool = cs.subrange(i, n);
    assert(pool[0] == c);
    lemma_reconcile_plain(text, pool, h2, seq![line]);
    assert(seq![line] =~= seq![ind + placeholder(text, pool[0])] + Seq::<Seq<char>>::empty());
    lemma_reconcile_placeholder(text, pool, ind, Seq::<Seq<char>>::empty());
    let tgt = slice_chars(text, c.target.start as int, c.target.end as int);
    crate::text::lemma_slice_concat(text, from, c.target.start as int, c.target.end as int);
    crate::text::lemma_slice_concat(text, from, c.target.end as int, text.len() as int);
    let b = slice_chars(text, from, text.len() as int);
    assert(slice_chars(text, c.target.end as int, text.len() as int) == segment(text, cs, n));
    assert(b =~= g + tgt);
    let f = original_rest(text, cs, i);
    if i == 0 {
        assert(f =~= h2 + ind + tgt);
    } else {
        assert(f =~= b.drop_first());
        assert(f =~= h2 + ind + tgt);
    }
    assert(tail_suffix(text, cs) == seq!['\n']);
    assert((ind + tgt + seq!['\n']) + Seq::<char>::empty() =~= ind + tgt + seq!['\n']);
    assert(h2 + (ind + tgt + seq!['\n']) =~= f + tail_suffix(text, cs));
}

/// The collapsed text ends as the text after the last collapse does.
proof fn lemma_render_last(text: Seq<u8>, cs: Seq<Collapse>, i: int)
    requires
        0 <= i <= cs.len(),
    ensures
        segment(text, cs, cs.len() as int).len() > 0 ==> {
            let r = render_from(text, cs.subrange(i, cs.len() as int), seg_start(cs, i));
            r.len() > 0 && r.last() == segment(text, cs, cs.len() as int).last()
        },
    decreases cs.len() - i,
{
    let n = cs.len() as int;
    if i == n {
        assert(cs.subrange(n, n).len() == 0);
    } else {
        lemma_render_step(text, cs, i, seg_start(cs, i));
        lemma_render_last(text, cs, i + 1);
        assert(seg_start(cs, i + 1) == cs[i].target.end);
    }
}

/// When the last collapse reaches the end of the text, the collapsed text ends
/// with its placeholder, so not with a line feed.
proof fn lemma_render_end(text: Seq<u8>, cs: Seq<Collapse>)
    requires
        at_end(text, cs),
    ensures
        rendered(text, cs).len() > 0 && rendered(text, cs).last() == '.',
{
    let n = cs.len() as int;
    assert(cs.subrange(0, n) =~= cs);
    lemma_render_suffix(text, cs, 0);
}

/// From collapse `i` on, when the last collapse reaches the end of the text,
/// the collapsed text ends with the last placeholder.
proof fn lemma_render_suffix(text: Seq<u8>, cs: Seq<Collapse>, i: int)
    requires
        at_end(text, cs),
        0 <= i < cs.len(),
    ensures
        ({
            let r = render_from(text, cs.subrange(i, cs.len() as int), seg_start(cs, i));
            r.len() > 0 && r.last() == '.'
        }),
    decreases cs.len() - i,
{
    let n = cs.len() as int;
    lemma_render_step(text, cs, i, seg_start(cs, i));
    let ph = placeholder(text, cs[i]);
    assert(ph.len() > 0 && ph.last() == '.');
    if i + 1 < n {
        lemma_render_suffix(text, cs, i + 1);
        assert(seg_start(cs, i + 1) == cs[i].target.end);
    } else {
        assert(cs.subrange(n, n).len() == 0);
        assert(seg_start(cs, n) == cs[i].target.end);
        assert(render_from(text, cs.subrange(n, n), seg_start(cs, n)) == segment(text, cs, n));
    }
}

/// Collapsing and then expanding an unedited document gives back the text,
/// whenever each placeholder sits alone on its line after indentation (a line
/// feed or the end of the text follows it), its key reads back unchanged, and
/// the kept text has no `\r\n` and no line ending in `...`.
pub proof fn lemma_round_trip(text: Seq<char>, cs: Seq<Collapse>)
    requires
        collapses_well_formed(encode_utf8(text), cs),
        line_aligned(encode_utf8(text), cs),
    ensures
        uncollapse_spec(encode_utf8(text), cs, rendered(encode_utf8(text), cs)) == Ok::<
            Seq<char>,
            Seq<char>,
        >(text),
{
    let t = encode_utf8(text);
    encode_utf8_valid_utf8(text);
    encode_utf8_decode_utf8(text);
    assert forall|j: int| 0 <= j <= cs.len() implies aligned_at(t, cs, j) by {
        lemma_aligned_at(t, cs, j);
    }
    lemma_round_trip_from(t, cs, 0);
    assert(cs.subrange(0, cs.len() as int) =~= cs);
    assert(t.subrange(0, t.len() as int) =~= t);
    let r = rendered(t, cs);
    lemma_render_last(t, cs, 0);
    let last = segment(t, cs, cs.len() as int);
    lemma_last_line_start(last);
    let l = last_line(last);
    assert(original_rest(t, cs, 0) == text);
    if at_end(t, cs) {
        lemma_render_end(t, cs);
        assert((text + seq!['\n']).drop_last() =~= text);
    } else if l.len() > 0 {
        if cs.len() == 0 {
            assert(r == last);
        }
        assert(l.last() == last.last());
        assert(l.last() != '\n') by {
            assert(l[l.len() - 1] == last[l.len() - 1 + last_line_start(last)]);
        }
        assert((text + seq!['\n']).drop_last() =~= text);
    } else {
        assert(text + tail_suffix(t, cs) =~= text);
        if cs.len() == 0 {
            assert(r == last);
        }
        if last.len() > 0 {
            assert(last[last.len() - 1] == '\n');
        }
    }
}

} // verus!
