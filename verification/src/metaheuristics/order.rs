use vstd::prelude::*;
use crate::types::others::Cost;

verus! {

/// `order` lists the positions of `costs` by ascending cost, positions of
/// equal cost in their own order, each position once.
pub open spec fn ordered(costs: Seq<Cost>, order: Seq<usize>) -> bool {
    &&& order.len() == costs.len()
    &&& forall|k: int| 0 <= k < order.len() ==> (#[trigger] order[k]) < costs.len()
    &&& forall|a: int, b: int|
        0 <= a < b < order.len() ==> costs[#[trigger] order[a] as int] <= costs[#[trigger] order[b] as int]
            && (costs[order[a] as int] == costs[order[b] as int] ==> order[a] < order[b])
    &&& forall|x: usize| x < costs.len() ==> #[trigger] order.contains(x)
}

/// The positions of the costs by ascending cost; positions of equal cost
/// keep their order.
pub fn sorted_order(costs: &Vec<Cost>) -> (order: Vec<usize>)
    ensures
        ordered(costs@, order@),
{
    let n = costs.len();
    let mut order: Vec<usize> = Vec::new();
    let mut x: usize = 0;
    while x < n
        invariant
            n == costs.len(),
            x <= n,
            order.len() == x,
            forall|k: int| 0 <= k < order.len() ==> (#[trigger] order[k]) < x,
            forall|a: int, b: int|
                0 <= a < b < order.len() ==> costs[#[trigger] order[a] as int] <= costs[#[trigger] order[b] as int]
                    && (costs[order[a] as int] == costs[order[b] as int] ==> order[a] < order[b]),
            forall|y: usize| y < x ==> #[trigger] order@.contains(y),
        decreases n - x,
    {
        let mut p: usize = order.len();
        while p > 0 && costs[order[p - 1]] > costs[x]
            invariant
                n == costs.len(),
                x < n,
                order.len() == x,
                p <= order.len(),
                forall|k: int| 0 <= k < order.len() ==> (#[trigger] order[k]) < x,
                forall|k: int| p <= k < order.len() ==> costs[#[trigger] order[k] as int] > costs[x as int],
            decreases p,
        {
            p -= 1;
        }
        let ghost before = order@;
        order.insert(p, x);
        proof {
            let after = order@;
            assert(after.len() == before.len() + 1);
            assert forall|k: int| 0 <= k < after.len() implies (#[trigger] after[k]) < x + 1 by {
                if k < p {
                    assert(after[k] == before[k]);
                } else if k > p {
                    assert(after[k] == before[k - 1]);
                }
            }
            assert forall|a: int, b: int| 0 <= a < b < after.len() implies costs[#[trigger] after[a] as int]
                <= costs[#[trigger] after[b] as int] && (costs[after[a] as int] == costs[after[b] as int]
                ==> after[a] < after[b]) by {
                let ia = if a < p {
                    a
                } else {
                    a - 1
                };
                let ib = if b < p {
                    b
                } else {
                    b - 1
                };
                if a != p {
                    assert(after[a] == before[ia]);
                }
                if b != p {
                    assert(after[b] == before[ib]);
                }
                if a == p {
                    assert(before[ib] < x);
                } else if b == p {
                    if p > 0 {
                        assert(costs[before[p - 1] as int] <= costs[x as int]);
                        if a < p - 1 {
                            assert(costs[before[a] as int] <= costs[before[p - 1] as int]);
                        }
                    }
                    assert(before[ia] < x);
                } else {
                    assert(ia < ib);
                }
            }
            assert forall|y: usize| y < x + 1 implies #[trigger] after.contains(y) by {
                if y == x {
                    assert(after[p as int] == x);
                } else {
                    assert(before.contains(y));
                    let k0 = choose|k: int| 0 <= k < before.len() && before[k] == y;
                    if k0 < p {
                        assert(after[k0] == y);
                    } else {
                        assert(after[k0 + 1] == y);
                    }
                }
            }
        }
        x += 1;
    }
    order
}

} // verus!
