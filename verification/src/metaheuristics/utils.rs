use vstd::prelude::*;
use rand::seq::SliceRandom;
use crate::types::others::{Cost, RouteEntry, RouteModel, SCALE};
use crate::types::solution::{Solution, SolutionModel};

verus! {

/// The costs do not decrease along the list.
pub open spec fn ascending(costs: Seq<Cost>) -> bool {
    forall|a: int, b: int| 0 <= a <= b < costs.len() ==> costs[a] <= costs[b]
}

/// The cost at `i` is at most the first cost plus the fraction `alpha` of
/// the span between the first cost and the last.
pub open spec fn within_alpha(costs: Seq<Cost>, alpha: u64, i: int) -> bool {
    (costs[i] - costs[0]) * SCALE <= (costs.last() - costs[0]) * alpha
}

/// The largest index under `k` whose cost is within `alpha`; -1 if there
/// is none.
pub open spec fn last_within(costs: Seq<Cost>, alpha: u64, k: nat) -> int
    decreases k,
{
    if k == 0 {
        -1
    } else if within_alpha(costs, alpha, k - 1) {
        k - 1
    } else {
        last_within(costs, alpha, (k - 1) as nat)
    }
}

/// An index that is within `alpha`, with none after it under `k` that is,
/// is the largest one.
pub proof fn lemma_last_within(costs: Seq<Cost>, alpha: u64, k: nat, i: int)
    requires
        0 <= i < k,
        within_alpha(costs, alpha, i),
        forall|j: int| i < j < k ==> !within_alpha(costs, alpha, j),
    ensures
        last_within(costs, alpha, k) == i,
    decreases k,
{
    if i < k - 1 {
        lemma_last_within(costs, alpha, (k - 1) as nat, i);
    }
}

/// The number of items that a choice among the first `size` items of a list
/// of `len` items is made from.
pub open spec fn rcl_size(len: int, size: int) -> int {
    if size < len {
        size
    } else {
        len
    }
}

/// The number of items that the choice by `alpha` is made from: the largest
/// index within `alpha`, or `min_size` if that is more, but never more than
/// the list holds.
pub open spec fn alpha_rcl_size(costs: Seq<Cost>, alpha: u64, min_size: int, len: int) -> int {
    let max_index = last_within(costs, alpha, costs.len());
    rcl_size(
        len,
        if max_index > min_size {
            max_index
        } else {
            min_size
        },
    )
}

/// The total of the first `k` weights.
pub open spec fn total_weight(weights: Seq<u64>, k: nat) -> int
    decreases k,
{
    if k == 0 {
        0
    } else {
        total_weight(weights, (k - 1) as nat) + weights[k - 1]
    }
}

/// The routes with those of the vehicles of `new_route1` and `new_route2`
/// replaced by these two.
pub open spec fn swapped(routes: Seq<RouteModel>, new_route1: RouteModel, new_route2: RouteModel) -> Seq<
    RouteModel,
> {
    Seq::new(
        routes.len(),
        |k: int|
            if routes[k].vehicle_id == new_route1.vehicle_id {
                new_route1
            } else if routes[k].vehicle_id == new_route2.vehicle_id {
                new_route2
            } else {
                routes[k]
            },
    )
}

/// The routes that cost something, in order.
pub open spec fn costly(routes: Seq<RouteModel>) -> Seq<RouteModel> {
    routes.filter(|r: RouteModel| r.route_cost() > 0)
}

/// The method `choose` of `rand::seq::SliceRandom` on a slice, with the
/// generator of `rand::thread_rng`: nothing from an empty list, else a
/// reference to one of the items of the list. Which item is left open.
#[verifier::external_body]
fn choose_random<'a, T>(items: &'a Vec<T>) -> (r: Option<&'a T>)
    ensures
        items.len() == 0 ==> r is None,
        items.len() > 0 ==> r is Some && items@.contains(*r.unwrap()),
{
    items.choose(&mut rand::thread_rng())
}

/// The method `choose_weighted` of `rand::seq::SliceRandom` on a slice of
/// positions, each weighted by the entry of `weights` that it names, with
/// the generator of `rand::thread_rng`: nothing if there is no position or
/// if all the weights are zero, else one of the positions, of a weight that
/// is not zero. Which one is left open.
#[verifier::external_body]
fn choose_random_weighted(positions: &Vec<usize>, weights: &Vec<u64>) -> (r: Option<usize>)
    requires
        forall|k: int| 0 <= k < positions.len() ==> positions[k] < weights.len(),
        total_weight(
            Seq::new(positions.len() as nat, |k: int| weights[positions[k] as int]),
            positions.len() as nat,
        ) <= u64::MAX,
    ensures
        r is None <==> forall|k: int| 0 <= k < positions.len() ==> weights[positions[k] as int] == 0,
        r is Some ==> positions@.contains(r.unwrap()) && weights[r.unwrap() as int] > 0,
{
    positions.choose_weighted(&mut rand::thread_rng(), |p| weights[*p]).ok().copied()
}

/// Chooses at random among the first `size` items of the list, or among all
/// of them if the list is shorter. Returns nothing if there is nothing to
/// choose from.
pub fn sized_rcl_choose<'a, T>(list: &'a Vec<T>, size: usize) -> (r: Option<&'a T>)
    ensures
        rcl_size(list.len() as int, size as int) == 0 ==> r is None,
        rcl_size(list.len() as int, size as int) > 0 ==> r is Some && exists|i: int|
            0 <= i < rcl_size(list.len() as int, size as int) && *r.unwrap() == list[i],
{
    let mut rcl: Vec<&T> = Vec::new();
    let count = if size < list.len() {
        size
    } else {
        list.len()
    };

    let mut index: usize = 0;
    while index < count
        invariant
            index <= count <= list.len(),
            rcl.len() == index,
            forall|k: int| 0 <= k < index ==> *rcl[k] == list[k],
        decreases count - index,
    {
        rcl.push(&list[index]);
        index += 1;
    }

    match choose_random(&rcl) {
        None => None,
        Some(value) => {
            proof {
                let k = choose|k: int| 0 <= k < rcl.len() && rcl[k] == *value;
                assert(**value == list[k]);
            }
            Some(*value)
        },
    }
}

/// The largest index whose cost is at most the first cost plus the fraction
/// `alpha` of the span between the first cost and the last. Returns nothing
/// for an empty list.
pub fn alpha_max_index(costs: &Vec<Cost>, alpha: u64) -> (r: Option<usize>)
    requires
        ascending(costs@),
        alpha <= SCALE,
        costs.len() > 0 ==> costs@.last() * SCALE <= u128::MAX,
    ensures
        costs.len() == 0 ==> r is None,
        costs.len() > 0 ==> r == Some(last_within(costs@, alpha, costs.len() as nat) as usize) && 0
            <= last_within(costs@, alpha, costs.len() as nat) < costs.len(),
{
    let n = costs.len();
    if n == 0 {
        return None;
    }
    let c_min = costs[0];
    let c_max = costs[n - 1];
    proof {
        assert((c_max - c_min) * alpha <= c_max * SCALE) by (nonlinear_arith)
            requires
                0 <= c_min <= c_max,
                0 <= alpha <= SCALE,
        ;
        assert(0 <= (c_max - c_min) * alpha) by (nonlinear_arith)
            requires
                0 <= c_min <= c_max,
                0 <= alpha,
        ;
    }
    let span: u128 = (c_max - c_min) * (alpha as u128);

    let mut lo: usize = 0;
    let mut hi: usize = n;
    while hi - lo > 1
        invariant
            0 <= lo < hi <= n,
            n == costs.len(),
            c_min == costs[0],
            c_max == costs@.last(),
            span == (c_max - c_min) * alpha,
            ascending(costs@),
            c_max * SCALE <= u128::MAX,
            within_alpha(costs@, alpha, lo as int),
            forall|k: int| hi <= k < n ==> !within_alpha(costs@, alpha, k),
        decreases hi - lo,
    {
        let mid = lo + (hi - lo) / 2;
        proof {
            assert((costs[mid as int] - c_min) * SCALE <= c_max * SCALE) by (nonlinear_arith)
                requires
                    0 <= c_min <= costs[mid as int] <= c_max,
            ;
        }
        if (costs[mid] - c_min) * (SCALE as u128) <= span {
            lo = mid;
        } else {
            proof {
                assert forall|k: int| mid <= k < n implies !within_alpha(costs@, alpha, k) by {
                    assert((costs[mid as int] - c_min) * SCALE <= (costs[k] - c_min) * SCALE)
                        by (nonlinear_arith)
                        requires
                            costs[mid as int] <= costs[k],
                    ;
                }
            }
            hi = mid;
        }
    }
    proof {
        lemma_last_within(costs@, alpha, n as nat, lo as int);
    }
    Some(lo)
}

/// Chooses at random among the first items of the list: as many as the
/// largest index within `alpha` says, or `min_size` if that is more.
/// Returns nothing if there are no costs or nothing to choose from.
pub fn alpha_rcl_choose<'a, T>(list: &'a Vec<T>, costs: &Vec<Cost>, alpha: u64, min_size: usize) -> (r:
    Option<&'a T>)
    requires
        ascending(costs@),
        alpha <= SCALE,
        costs.len() > 0 ==> costs@.last() * SCALE <= u128::MAX,
    ensures
        costs.len() == 0 ==> r is None,
        costs.len() > 0 && alpha_rcl_size(costs@, alpha, min_size as int, list.len() as int) == 0
            ==> r is None,
        costs.len() > 0 && alpha_rcl_size(costs@, alpha, min_size as int, list.len() as int) > 0
            ==> r is Some && exists|i: int|
            0 <= i < alpha_rcl_size(costs@, alpha, min_size as int, list.len() as int)
                && *r.unwrap() == list[i],
{
    if let Some(max_index) = alpha_max_index(costs, alpha) {
        let wanted = if max_index > min_size {
            max_index
        } else {
            min_size
        };
        let size = if wanted < list.len() {
            wanted
        } else {
            list.len()
        };
        sized_rcl_choose(list, size)
    } else {
        None
    }
}

/// Chooses an item of the list at random, each with a chance in proportion
/// to its weight. Returns nothing if the list is empty or no item has a
/// weight.
pub fn weighted_choose<'a, T>(list: &'a Vec<T>, weights: Vec<u64>) -> (r: Option<&'a T>)
    requires
        list.len() <= weights.len(),
        total_weight(weights@, list.len() as nat) <= u64::MAX,
    ensures
        r is None <==> forall|k: int| 0 <= k < list.len() ==> weights[k] == 0,
        r is Some ==> exists|i: int| 0 <= i < list.len() && weights[i] > 0 && *r.unwrap() == list[i],
{
    let mut rcl: Vec<usize> = Vec::new();
    let mut index: usize = 0;
    while index < list.len()
        invariant
            index <= list.len(),
            rcl.len() == index,
            forall|k: int| 0 <= k < index ==> rcl[k] == k,
        decreases list.len() - index,
    {
        rcl.push(index);
        index += 1;
    }
    proof {
        let picked = Seq::new(rcl.len() as nat, |k: int| weights[rcl[k] as int]);
        lemma_total_weight_same(picked, weights@, list.len() as nat);
    }
    match choose_random_weighted(&rcl, &weights) {
        None => {
            proof {
                assert forall|k: int| 0 <= k < list.len() implies weights[k] == 0 by {
                    assert(weights[rcl[k] as int] == 0);
                }
            }
            None
        },
        Some(position) => {
            proof {
                let k = choose|k: int| 0 <= k < rcl.len() && rcl[k] == position;
                assert(position == k);
                assert(weights[k] > 0);
            }
            Some(&list[position])
        },
    }
}

/// Two lists of weights that agree on their first `k` entries have the
/// same total over these.
pub proof fn lemma_total_weight_same(a: Seq<u64>, b: Seq<u64>, k: nat)
    requires
        k <= a.len(),
        k <= b.len(),
        forall|i: int| 0 <= i < k ==> a[i] == b[i],
    ensures
        total_weight(a, k) == total_weight(b, k),
    decreases k,
{
    if k > 0 {
        lemma_total_weight_same(a, b, (k - 1) as nat);
    }
}

/// The solution with the routes of the vehicles of `new_route1` and
/// `new_route2` replaced by these two, and without the routes that then
/// cost nothing. Value and distance are left as they were.
pub fn transform_solution(sol: &Solution, new_route1: &RouteEntry, new_route2: &RouteEntry) -> (r:
    Solution)
    requires
        new_route1@.route_cost() <= u128::MAX,
        new_route2@.route_cost() <= u128::MAX,
        forall|k: int| 0 <= k < sol.routes.len() ==> (#[trigger] sol.routes[k])@.route_cost() <= u128::MAX,
    ensures
        r@ == (SolutionModel { routes: costly(swapped(sol@.routes, new_route1@, new_route2@)), ..sol@ }),
{
    let mut new_routes: Vec<RouteEntry> = Vec::new();
    let ghost all = swapped(sol@.routes, new_route1@, new_route2@);
    let ghost pred = |r: RouteModel| r.route_cost() > 0;
    let mut i: usize = 0;
    proof {
        reveal(Seq::filter);
        assert(all.take(0) =~= Seq::empty());
    }
    while i < sol.routes.len()
        invariant
            i <= sol.routes.len(),
            all == swapped(sol@.routes, new_route1@, new_route2@),
            all.len() == sol.routes.len(),
            pred == (|r: RouteModel| r.route_cost() > 0),
            new_route1@.route_cost() <= u128::MAX,
            new_route2@.route_cost() <= u128::MAX,
            forall|k: int|
                0 <= k < sol.routes.len() ==> (#[trigger] sol.routes[k])@.route_cost() <= u128::MAX,
            crate::types::solution::route_models(new_routes@) == all.take(i as int).filter(pred),
        decreases sol.routes.len() - i,
    {
        let route = &sol.routes[i];
        assert(sol@.routes[i as int] == route@);
        let candidate = if route.vehicle_id == new_route1.vehicle_id {
            new_route1.clone()
        } else if route.vehicle_id == new_route2.vehicle_id {
            new_route2.clone()
        } else {
            route.clone()
        };
        assert(candidate@ == all[i as int]);
        let ghost before = crate::types::solution::route_models(new_routes@);
        proof {
            all.take(i as int).lemma_filter_push(all[i as int], pred);
            assert(all.take(i + 1) =~= all.take(i as int).push(all[i as int]));
        }
        if candidate.route_cost() > 0 {
            new_routes.push(candidate);
            proof {
                assert(crate::types::solution::route_models(new_routes@) =~= before.push(
                    all[i as int],
                ));
            }
        }
        i += 1;
    }
    proof {
        assert(all.take(i as int) =~= all);
    }
    Solution {
        routes: new_routes,
        value: sol.value,
        construction_value: sol.construction_value,
        distance: sol.distance,
        iter_found: sol.iter_found,
    }
}

} // verus!
