use vstd::prelude::*;
use vstd::seq_lib::{lemma_multiset_commutative, to_multiset_build};
use super::types::GraspRoute;
use crate::types::others::{stop_ids, RouteModel};
use crate::types::problem_instance::ProblemInstance;
use crate::types::solution::SolutionModel;

verus! {

/// How often the client occurs among the ids.
pub open spec fn count_in(ids: Seq<usize>, c: usize) -> nat {
    ids.to_multiset().count(c)
}

/// How often the client occurs in the first `k` of the lists of ids.
pub open spec fn visits(all: Seq<Seq<usize>>, c: usize, k: nat) -> nat
    decreases k,
{
    if k == 0 {
        0
    } else {
        visits(all, c, (k - 1) as nat) + count_in(all[k - 1], c)
    }
}

/// The clients of the stops of each route that is being built.
pub open spec fn building_ids(routes: Seq<GraspRoute>) -> Seq<Seq<usize>> {
    Seq::new(routes.len(), |v: int| stop_ids(routes[v].route@))
}

/// The clients of the stops of each route.
pub open spec fn route_ids(routes: Seq<RouteModel>) -> Seq<Seq<usize>> {
    Seq::new(routes.len(), |k: int| routes[k].ids())
}

impl ProblemInstance {
    /// Every client but the depot is visited by exactly one route, exactly
    /// once.
    pub open spec fn covers(&self, sol: SolutionModel) -> bool {
        forall|c: usize|
            c < self.clients.len() && c != self.source ==> #[trigger] visits(
                route_ids(sol.routes),
                c,
                sol.routes.len(),
            ) == 1
    }
}

/// A client occurs once more among ids to which it is added, and any other
/// as often as before.
pub proof fn lemma_count_push(ids: Seq<usize>, x: usize, c: usize)
    ensures
        count_in(ids.push(x), c) == count_in(ids, c) + (if x == c {
            1nat
        } else {
            0nat
        }),
{
    to_multiset_build(ids, x);
}

/// A client occurs among ids put one after the other as often as among
/// both together.
pub proof fn lemma_count_add(a: Seq<usize>, b: Seq<usize>, c: usize)
    ensures
        count_in(a + b, c) == count_in(a, c) + count_in(b, c),
{
    lemma_multiset_commutative(a, b);
}

/// No client occurs among no ids.
pub proof fn lemma_count_empty(c: usize)
    ensures
        count_in(Seq::<usize>::empty(), c) == 0,
{
    assert(Seq::<usize>::empty().to_multiset() =~= vstd::multiset::Multiset::empty()) by {
        broadcast use vstd::seq_lib::group_to_multiset_ensures;

        assert(Seq::<usize>::empty().to_multiset().len() == 0);
    }
}

/// Only the first `k` lists matter to the visits among them.
pub proof fn lemma_visits_agree(a: Seq<Seq<usize>>, b: Seq<Seq<usize>>, c: usize, k: nat)
    requires
        k <= a.len(),
        k <= b.len(),
        forall|m: int| 0 <= m < k ==> a[m] == b[m],
    ensures
        visits(a, c, k) == visits(b, c, k),
    decreases k,
{
    if k > 0 {
        lemma_visits_agree(a, b, c, (k - 1) as nat);
    }
}

/// Where one list changes, the visits change by what the client occurs
/// more or less often in it.
pub proof fn lemma_visits_update(a: Seq<Seq<usize>>, b: Seq<Seq<usize>>, v: int, c: usize, k: nat)
    requires
        a.len() == b.len(),
        0 <= v < a.len(),
        k <= a.len(),
        forall|m: int| 0 <= m < a.len() && m != v ==> a[m] == b[m],
    ensures
        visits(b, c, k) + (if v < k {
            count_in(a[v], c)
        } else {
            0
        }) == visits(a, c, k) + (if v < k {
            count_in(b[v], c)
        } else {
            0
        }),
    decreases k,
{
    if k > 0 {
        lemma_visits_update(a, b, v, c, (k - 1) as nat);
    }
}

/// A list without repeats that loses one item holds what it held but
/// that item, still without repeats.
pub proof fn lemma_remove_one(s: Seq<usize>, i: int)
    requires
        0 <= i < s.len(),
        s.no_duplicates(),
    ensures
        s.remove(i).no_duplicates(),
        s.remove(i).len() == s.len() - 1,
        forall|c: usize| #[trigger] s.remove(i).contains(c) <==> s.contains(c) && c != s[i],
{
    let r = s.remove(i);
    assert forall|a: int, b: int| 0 <= a < r.len() && 0 <= b < r.len() && a != b implies r[a]
        != r[b] by {
        let xa = if a < i {
            a
        } else {
            a + 1
        };
        let xb = if b < i {
            b
        } else {
            b + 1
        };
        assert(r[a] == s[xa] && r[b] == s[xb]);
    }
    assert forall|c: usize| #[trigger] r.contains(c) <==> s.contains(c) && c != s[i] by {
        if r.contains(c) {
            let a = choose|a: int| 0 <= a < r.len() && r[a] == c;
            let xa = if a < i {
                a
            } else {
                a + 1
            };
            assert(r[a] == s[xa]);
        }
        if s.contains(c) && c != s[i] {
            let x = choose|x: int| 0 <= x < s.len() && s[x] == c;
            let a = if x < i {
                x
            } else {
                x - 1
            };
            assert(r[a] == c);
        }
    }
}

/// Routes that stop at the depot only visit no other client.
pub proof fn lemma_visits_none(all: Seq<Seq<usize>>, depot: usize, c: usize, k: nat)
    requires
        k <= all.len(),
        c != depot,
        forall|v: int| 0 <= v < all.len() ==> #[trigger] all[v] == seq![depot],
    ensures
        visits(all, c, k) == 0,
    decreases k,
{
    if k > 0 {
        lemma_visits_none(all, depot, c, (k - 1) as nat);
        lemma_count_empty(c);
        lemma_count_push(Seq::<usize>::empty(), depot, c);
        assert(seq![depot] =~= Seq::<usize>::empty().push(depot));
    }
}

} // verus!
