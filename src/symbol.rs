use vstd::prelude::*;
use vstd::string::*;

verus! {

broadcast use vstd::string::group_string_axioms;

/// A qualified path of name segments, outermost construct first
/// (`outer::inner::my_function`). Equality and order compare the segments
/// lexicographically.
#[derive(Clone, Debug, PartialEq, Eq, PartialOrd, Ord)]
pub struct Symbol {
    pub parts: Vec<String>,
}

impl View for Symbol {
    type V = Seq<Seq<char>>;

    open spec fn view(&self) -> Seq<Seq<char>> {
        self.parts@.map_values(|p: String| p@)
    }
}

/// The views of a list of symbols.
pub open spec fn symbols_view(symbols: Seq<Symbol>) -> Seq<Seq<Seq<char>>> {
    symbols.map_values(|s: Symbol| s@)
}

/// `a` names `b` or an ancestor of `b`: every segment of `a` equals the segment of
/// `b` at the same position, and `a` is no longer than `b`.
pub open spec fn is_prefix_of(a: Seq<Seq<char>>, b: Seq<Seq<char>>) -> bool {
    &&& a.len() <= b.len()
    &&& forall|i: int| 0 <= i < a.len() ==> a[i] == b[i]
}

/// A symbol is relevant when it is an important symbol or an ancestor of one.
pub open spec fn relevant(s: Seq<Seq<char>>, important: Seq<Seq<Seq<char>>>) -> bool {
    exists|k: int| 0 <= k < important.len() && is_prefix_of(s, important[k])
}

/// The segments joined by `::`.
pub open spec fn join_parts(parts: Seq<Seq<char>>) -> Seq<char>
    decreases parts.len(),
{
    if parts.len() == 0 {
        seq![]
    } else if parts.len() == 1 {
        parts[0]
    } else {
        join_parts(parts.drop_last()) + seq![':', ':'] + parts.last()
    }
}

impl Symbol {
    /// The symbol as text: `#` followed by its segments joined by `::`.
    pub fn rendered(&self) -> (r: String)
        ensures
            r@ == seq!['#'] + join_parts(self@),
    {
        proof {
            reveal_strlit("#");
            reveal_strlit("::");
        }
        let mut r = String::new();
        r.append("#");
        let mut i: usize = 0;
        while i < self.parts.len()
            invariant
                i <= self.parts@.len(),
                r@ == seq!['#'] + join_parts(self@.subrange(0, i as int)),
            decreases self.parts@.len() - i,
        {
            let ghost before = r@;
            if i > 0 {
                r.append("::");
            }
            r.append(self.parts[i].as_str());
            let ghost pre = self@.subrange(0, i + 1);
            assert(pre.drop_last() =~= self@.subrange(0, i as int));
            assert(pre.last() == self@[i as int]);
            assert(self.parts@[i as int]@ == self@[i as int]);
            if i == 0 {
                assert(pre.len() == 1);
                assert(join_parts(pre) == pre[0]);
                assert(r@ =~= seq!['#'] + join_parts(pre));
            } else {
                proof {
                    reveal_strlit("::");
                }
                assert("::"@ =~= seq![':', ':']);
                assert(r@ =~= seq!['#'] + join_parts(pre));
            }
            i += 1;
        }
        assert(self@.subrange(0, self@.len() as int) =~= self@);
        r
    }

    /// A copy of this symbol.
    pub fn duplicate(&self) -> (r: Symbol)
        ensures
            r@ == self@,
    {
        let mut parts: Vec<String> = Vec::new();
        let mut i: usize = 0;
        while i < self.parts.len()
            invariant
                i <= self.parts@.len(),
                parts@.len() == i,
                forall|k: int| 0 <= k < i ==> parts@[k]@ == self.parts@[k]@,
            decreases self.parts@.len() - i,
        {
            parts.push(self.parts[i].clone());
            i += 1;
        }
        let r = Symbol { parts };
        assert(r@ =~= self@);
        r
    }
}

/// Whether `symbol` names `important` or one of its ancestors.
pub fn symbols_match(symbol: &Symbol, important: &Symbol) -> (r: bool)
    ensures
        r == is_prefix_of(symbol@, important@),
{
    if symbol.parts.len() > important.parts.len() {
        return false;
    }
    let mut i: usize = 0;
    while i < symbol.parts.len()
        invariant
            symbol.parts@.len() <= important.parts@.len(),
            i <= symbol.parts@.len(),
            forall|k: int| 0 <= k < i ==> symbol@[k] == important@[k],
        decreases symbol.parts@.len() - i,
    {
        let same = symbol.parts[i] == important.parts[i];
        if !same {
            assert(symbol@[i as int] != important@[i as int]);
            return false;
        }
        i += 1;
    }
    true
}

/// Whether `symbol` is relevant to the important set `important`.
pub fn is_relevant(symbol: &Symbol, important: &Vec<Symbol>) -> (r: bool)
    ensures
        r == relevant(symbol@, symbols_view(important@)),
{
    let mut k: usize = 0;
    while k < important.len()
        invariant
            k <= important@.len(),
            forall|j: int| 0 <= j < k ==> !is_prefix_of(symbol@, symbols_view(important@)[j]),
        decreases important@.len() - k,
    {
        if symbols_match(symbol, &important[k]) {
            assert(is_prefix_of(symbol@, symbols_view(important@)[k as int]));
            return true;
        }
        k += 1;
    }
    false
}

/// A symbol that is a prefix of an important entry is relevant, however many
/// segments the entry has beyond it.
pub proof fn lemma_prefix_of_important_is_relevant(
    a: Seq<Seq<char>>,
    b: Seq<Seq<char>>,
    important: Seq<Seq<Seq<char>>>,
)
    requires
        is_prefix_of(a, b),
        important.contains(b),
    ensures
        relevant(a, important),
{
    let k = choose|k: int| 0 <= k < important.len() && important[k] == b;
    assert(is_prefix_of(a, important[k]));
}

} // verus!
