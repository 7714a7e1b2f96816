use vstd::prelude::*;
use vstd::string::*;
use vstd::utf8::*;

verus! {

broadcast use {
    vstd::string::group_string_axioms,
    vstd::utf8::is_char_boundary_iff_not_is_continuation_byte,
    vstd::utf8::is_char_boundary_start_end_of_seq,
    vstd::utf8::encode_utf8_valid_utf8,
    vstd::utf8::encode_utf8_decode_utf8,
    vstd::utf8::valid_utf8_split,
};

/// The characters that the bytes `[start, end)` of `text` encode.
pub open spec fn slice_chars(text: Seq<u8>, start: int, end: int) -> Seq<char> {
    decode_utf8(text.subrange(start, end))
}

/// `[start, end)` is a range of `text` whose ends fall on character boundaries.
pub open spec fn valid_range(text: Seq<u8>, start: int, end: int) -> bool {
    &&& 0 <= start <= end <= text.len()
    &&& is_char_boundary(text, start)
    &&& is_char_boundary(text, end)
}

/// A boundary of a valid text stays a boundary of any prefix that ends on a
/// boundary at or after it.
proof fn lemma_boundary_in_prefix(text: Seq<u8>, i: int, j: int)
    requires
        valid_utf8(text),
        0 <= i <= j <= text.len(),
        is_char_boundary(text, i),
        is_char_boundary(text, j),
    ensures
        valid_utf8(text.subrange(0, j)),
        is_char_boundary(text.subrange(0, j), i),
{
    let p = text.subrange(0, j);
    assert(valid_utf8(p));
    if i < j {
        assert(p[i] == text[i]);
        if i < text.len() {
            assert(is_char_boundary(text, i) <==> !is_continuation_byte(text[i]));
        }
        assert(is_char_boundary(p, i) <==> !is_continuation_byte(p[i]));
    } else {
        assert(p.len() == j);
    }
}

/// Whether `[start, end)` is a range of `text` on character boundaries.
pub fn is_valid_range(text: &str, start: usize, end: usize) -> (r: bool)
    ensures
        r == valid_range(text.spec_bytes(), start as int, end as int),
{
    start <= end && text.is_char_boundary(start) && text.is_char_boundary(end)
}

/// The piece of `text` between the byte offsets `start` and `end`.
pub fn slice_range(text: &str, start: usize, end: usize) -> (r: &str)
    requires
        valid_range(text.spec_bytes(), start as int, end as int),
    ensures
        r.spec_bytes() == text.spec_bytes().subrange(start as int, end as int),
        r@ == slice_chars(text.spec_bytes(), start as int, end as int),
{
    proof {
        lemma_boundary_in_prefix(text.spec_bytes(), start as int, end as int);
    }
    let (head, _) = text.split_at(end);
    let (_, mid) = head.split_at(start);
    assert(mid.spec_bytes() =~= text.spec_bytes().subrange(start as int, end as int));
    mid
}

/// Appends the bytes `[start, end)` of `text` to `out`.
pub fn push_range(out: &mut String, text: &str, start: usize, end: usize)
    requires
        valid_range(text.spec_bytes(), start as int, end as int),
    ensures
        final(out)@ == old(out)@ + slice_chars(text.spec_bytes(), start as int, end as int),
{
    let piece = slice_range(text, start, end);
    out.append(piece);
}

/// Appends the bytes of `text` from `start` to its end to `out`.
pub fn push_rest(out: &mut String, text: &str, start: usize)
    requires
        valid_range(text.spec_bytes(), start as int, start as int),
    ensures
        final(out)@ == old(out)@ + slice_chars(
            text.spec_bytes(),
            start as int,
            text.spec_bytes().len() as int,
        ),
{
    let (_, tail) = text.split_at(start);
    out.append(tail);
}

/// `c` has the Unicode `White_Space` property.
pub open spec fn is_white_space(c: char) -> bool {
    let u = c as u32;
    ||| 0x9 <= u <= 0xD
    ||| u == 0x20
    ||| u == 0x85
    ||| u == 0xA0
    ||| u == 0x1680
    ||| 0x2000 <= u <= 0x200A
    ||| u == 0x2028
    ||| u == 0x2029
    ||| u == 0x202F
    ||| u == 0x205F
    ||| u == 0x3000
}

/// `s` without its leading white space.
pub open spec fn trim_start_spec(s: Seq<char>) -> Seq<char>
    decreases s.len(),
{
    if s.len() > 0 && is_white_space(s[0]) {
        trim_start_spec(s.drop_first())
    } else {
        s
    }
}

/// `s` without its trailing white space.
pub open spec fn trim_end_spec(s: Seq<char>) -> Seq<char>
    decreases s.len(),
{
    if s.len() > 0 && is_white_space(s.last()) {
        trim_end_spec(s.drop_last())
    } else {
        s
    }
}

/// `s` without leading and trailing white space.
pub open spec fn trim_spec(s: Seq<char>) -> Seq<char> {
    trim_end_spec(trim_start_spec(s))
}

/// The leading white space of `s`.
pub open spec fn indent_of(s: Seq<char>) -> Seq<char> {
    s.subrange(0, s.len() - trim_start_spec(s).len())
}

/// Trimming the start keeps a suffix.
pub proof fn lemma_trim_start_suffix(s: Seq<char>)
    ensures
        trim_start_spec(s).len() <= s.len(),
        trim_start_spec(s) == s.subrange(s.len() - trim_start_spec(s).len(), s.len() as int),
    decreases s.len(),
{
    if s.len() > 0 && is_white_space(s[0]) {
        lemma_trim_start_suffix(s.drop_first());
        assert(s.drop_first().subrange(
            s.drop_first().len() - trim_start_spec(s.drop_first()).len(),
            s.drop_first().len() as int,
        ) =~= s.subrange(s.len() - trim_start_spec(s).len(), s.len() as int));
    } else {
        assert(s.subrange(0, s.len() as int) =~= s);
    }
}

/// Position `i` holds the first line feed of `s`.
pub open spec fn first_newline(s: Seq<char>, i: int) -> bool {
    &&& 0 <= i < s.len()
    &&& s[i] == '\n'
    &&& forall|j: int| 0 <= j < i ==> s[j] != '\n'
}

/// `l` without one trailing carriage return.
pub open spec fn strip_cr(l: Seq<char>) -> Seq<char> {
    if l.len() > 0 && l.last() == '\r' {
        l.drop_last()
    } else {
        l
    }
}

/// The lines of `s`: split at each line feed, a carriage return before a line
/// feed dropped, and no empty line after a final line feed.
pub open spec fn lines_spec(s: Seq<char>) -> Seq<Seq<char>>
    decreases s.len(),
{
    if s.len() == 0 {
        seq![]
    } else if exists|i: int| first_newline(s, i) {
        let i = choose|i: int| first_newline(s, i);
        seq![strip_cr(s.subrange(0, i))] + lines_spec(s.subrange(i + 1, s.len() as int))
    } else {
        seq![s]
    }
}

/// Relies on `str::lines`: lines end at `\n` or `\r\n`, the terminators are
/// dropped, and a final terminator is optional.
#[verifier::external_body]
pub(crate) fn split_lines(s: &str) -> (r: Vec<&str>)
    ensures
        r@.map_values(|l: &str| l@) == lines_spec(s@),
{
    s.lines().collect()
}

/// Relies on `str::trim`: leading and trailing `White_Space` removed.
#[verifier::external_body]
pub(crate) fn trim_str(s: &str) -> (r: &str)
    ensures
        r@ == trim_spec(s@),
{
    s.trim()
}

/// Relies on `str::trim_start`: leading `White_Space` removed.
#[verifier::external_body]
pub(crate) fn trim_start_str(s: &str) -> (r: &str)
    ensures
        r@ == trim_start_spec(s@),
{
    s.trim_start()
}

/// Adjacent pieces of a text decode to the piece that spans both.
pub proof fn lemma_slice_concat(text: Seq<u8>, a: int, b: int, c: int)
    requires
        valid_utf8(text),
        valid_range(text, a, b),
        valid_range(text, b, c),
    ensures
        slice_chars(text, a, b) + slice_chars(text, b, c) == slice_chars(text, a, c),
{
    lemma_boundary_in_prefix(text, a, c);
    let prefix = text.subrange(0, c);
    let u = prefix.subrange(a, c as int);
    assert(u =~= text.subrange(a, c));
    assert(valid_utf8(u));
    let k = b - a;
    if k < u.len() {
        assert(u[k] == text[b]);
        assert(is_char_boundary(text, b) <==> !is_continuation_byte(text[b]));
        assert(is_char_boundary(u, k) <==> !is_continuation_byte(u[k]));
    } else {
        assert(is_char_boundary(u, u.len() as int));
    }
    decode_utf8_split(u, k);
    assert(u.subrange(0, k) =~= text.subrange(a, b));
    assert(u.subrange(k, u.len() as int) =~= text.subrange(b, c));
}

} // verus!
