//! Stable ordering by decreasing key.
use vstd::prelude::*;

verus! {

/// Position `x` comes before position `y` when ordering by decreasing key,
/// equal keys keeping the order in which they came.
pub open spec fn precedes(keys: Seq<int>, x: int, y: int) -> bool {
    keys[x] > keys[y] || (keys[x] == keys[y] && x < y)
}

/// `order` lists every position of `keys` once, by decreasing key, equal keys in
/// the order in which they came (a stable sort by decreasing key).
pub open spec fn is_desc_order(keys: Seq<int>, order: Seq<usize>) -> bool {
    &&& order.len() == keys.len()
    &&& forall|a: int| 0 <= a < order.len() ==> #[trigger] order[a] < keys.len()
    &&& forall|a: int, b: int|
        0 <= a < b < order.len() ==> precedes(keys, #[trigger] order[a] as int, #[trigger] order[b] as int)
}

pub open spec fn ints(v: Seq<i128>) -> Seq<int> {
    v.map_values(|x: i128| x as int)
}

/// The positions of `keys` in stable decreasing order of key.
pub fn order_desc(keys: &Vec<i128>) -> (order: Vec<usize>)
    ensures
        is_desc_order(ints(keys@), order@),
{
    let ghost ks = ints(keys@);
    let n = keys.len();
    let mut order: Vec<usize> = Vec::new();
    let mut i: usize = 0;
    while i < n
        invariant
            n == keys@.len(),
            ks == ints(keys@),
            i <= n,
            order@.len() == i,
            forall|a: int| 0 <= a < order@.len() ==> #[trigger] order@[a] < i,
            forall|a: int, b: int|
                0 <= a < b < order@.len() ==> precedes(
                    ks,
                    #[trigger] order@[a] as int,
                    #[trigger] order@[b] as int,
                ),
        decreases n - i,
    {
        let k = keys[i];
        let mut pos: usize = 0;
        while pos < order.len() && keys[order[pos]] >= k
            invariant
                n == keys@.len(),
                ks == ints(keys@),
                i < n,
                k == keys@[i as int],
                order@.len() == i,
                forall|a: int| 0 <= a < order@.len() ==> #[trigger] order@[a] < i,
                pos <= order@.len(),
                forall|a: int| 0 <= a < pos ==> ks[#[trigger] order@[a] as int] >= k,
            decreases order@.len() - pos,
        {
            pos = pos + 1;
        }
        let ghost old_order = order@;
        order.insert(pos, i);
        assert forall|a: int, b: int| 0 <= a < b < order@.len() implies precedes(
            ks,
            #[trigger] order@[a] as int,
            #[trigger] order@[b] as int,
        ) by {
            if a < pos && b < pos {
                assert(order@[a] == old_order[a] && order@[b] == old_order[b]);
            } else if a < pos && b == pos {
                assert(ks[old_order[a] as int] >= k);
            } else if a < pos {
                assert(order@[a] == old_order[a] && order@[b] == old_order[b - 1]);
            } else if a == pos {
                assert(pos < old_order.len());
                assert(ks[old_order[pos as int] as int] < k);
                assert(order@[b] == old_order[b - 1]);
                if b - 1 > pos {
                    assert(precedes(ks, old_order[pos as int] as int, old_order[b - 1] as int));
                }
            } else {
                assert(order@[a] == old_order[a - 1] && order@[b] == old_order[b - 1]);
            }
        }
        i = i + 1;
    }
    order
}

} // verus!
