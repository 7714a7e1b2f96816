use vstd::prelude::*;

verus! {

/// Entry `a` (with key `ka`) comes before entry `b` (with key `kb`): keys compare
/// lexicographically, and the position in the input breaks ties.
pub open spec fn entry_before(ka: (usize, usize), a: int, kb: (usize, usize), b: int) -> bool {
    ||| ka.0 < kb.0
    ||| (ka.0 == kb.0 && ka.1 < kb.1)
    ||| (ka.0 == kb.0 && ka.1 == kb.1 && a < b)
}

/// `order` lists positions of `keys`, strictly ascending by key then position;
/// with as many entries as `keys`, it is the unique sorting permutation.
pub open spec fn sorted_by_keys(keys: Seq<(usize, usize)>, order: Seq<usize>) -> bool {
    &&& forall|i: int| 0 <= i < order.len() ==> order[i] < keys.len()
    &&& forall|i: int, j: int|
        0 <= i < j < order.len() ==> entry_before(
            keys[order[i] as int],
            order[i] as int,
            keys[order[j] as int],
            order[j] as int,
        )
}

/// Key `a` is at most key `b` in lexicographic order.
fn key_not_after(a: (usize, usize), b: (usize, usize)) -> (r: bool)
    ensures
        r == (a.0 < b.0 || (a.0 == b.0 && a.1 <= b.1)),
{
    a.0 < b.0 || (a.0 == b.0 && a.1 <= b.1)
}

/// The positions of `keys` in ascending key order; equal keys keep their input
/// order, so the sort is stable.
pub fn sort_order(keys: &Vec<(usize, usize)>) -> (order: Vec<usize>)
    ensures
        order@.len() == keys@.len(),
        sorted_by_keys(keys@, order@),
{
    let mut order: Vec<usize> = Vec::new();
    let mut i: usize = 0;
    while i < keys.len()
        invariant
            i <= keys@.len(),
            order@.len() == i,
            forall|q: int| 0 <= q < order@.len() ==> order@[q] < i,
            sorted_by_keys(keys@, order@),
        decreases keys@.len() - i,
    {
        let ki = keys[i];
        let mut p: usize = 0;
        while p < order.len() && key_not_after(keys[order[p]], ki)
            invariant
                i < keys@.len(),
                ki == keys@[i as int],
                p <= order@.len(),
                order@.len() == i,
                forall|q: int| 0 <= q < order@.len() ==> order@[q] < i,
                sorted_by_keys(keys@, order@),
                forall|q: int|
                    0 <= q < p ==> entry_before(
                        keys@[order@[q] as int],
                        order@[q] as int,
                        ki,
                        i as int,
                    ),
            decreases order@.len() - p,
        {
            p += 1;
        }
        proof {
            if p < order@.len() {
                assert(entry_before(ki, i as int, keys@[order@[p as int] as int], order@[p as int] as int));
            }
        }
        let ghost old_order = order@;
        order.insert(p, i);
        assert forall|a: int, b: int| 0 <= a < b < order@.len() implies entry_before(
            keys@[order@[a] as int],
            order@[a] as int,
            keys@[order@[b] as int],
            order@[b] as int,
        ) by {
            let oa = if a < p { old_order[a] } else if a == p { i } else { old_order[a - 1] };
            let ob = if b < p { old_order[b] } else if b == p { i } else { old_order[b - 1] };
            assert(order@[a] == oa);
            assert(order@[b] == ob);
            if b <= p {
                if b == p {
                    assert(entry_before(keys@[oa as int], oa as int, ki, i as int));
                }
            } else if a < p {
                assert(entry_before(keys@[oa as int], oa as int, ki, i as int));
                assert(entry_before(keys@[oa as int], oa as int, keys@[ob as int], ob as int));
            } else if a == p {
                assert(entry_before(ki, i as int, keys@[old_order[p as int] as int], old_order[p as int] as int));
                if b - 1 > p {
                    assert(entry_before(keys@[old_order[p as int] as int], old_order[p as int] as int, keys@[ob as int], ob as int));
                }
            } else {
                assert(entry_before(keys@[oa as int], oa as int, keys@[ob as int], ob as int));
            }
        }
        i += 1;
    }
    order
}

} // verus!
