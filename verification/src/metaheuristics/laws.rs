use vstd::prelude::*;
use super::coverage::{
    count_in, lemma_count_add, lemma_count_empty, lemma_count_push, lemma_visits_agree,
    lemma_visits_update, route_ids, visits,
};
use super::insertion_search::staying;
use super::invariants::{one_route_each, rebuilt};
use super::opt2_search::pair_cost;
use super::utils::{costly, swapped};
use crate::types::others::{stop_ids, RouteEntryClient, RouteModel, MAX_STOPS};
use crate::types::problem_instance::ProblemInstance;
use crate::types::solution::{total_cost, total_time, SolutionModel};

verus! {

impl ProblemInstance {
    /// The total demand of the first `k` of the clients.
    pub open spec fn demand_of(&self, ids: Seq<usize>, k: nat) -> int
        decreases k,
    {
        if k == 0 {
            0
        } else {
            self.demand_of(ids, (k - 1) as nat) + self.clients@[ids[k - 1] as int].demand
        }
    }

    /// The load of stops is the total demand of their clients.
    pub proof fn lemma_load_is_demand(&self, clients: Seq<RouteEntryClient>, k: nat)
        requires
            k <= clients.len(),
        ensures
            self.load(clients, k) == self.demand_of(stop_ids(clients), k),
        decreases k,
    {
        if k > 0 {
            self.lemma_load_is_demand(clients, (k - 1) as nat);
        }
    }

    /// Only the first `k` clients matter to their total demand.
    pub proof fn lemma_demand_agree(&self, a: Seq<usize>, b: Seq<usize>, k: nat)
        requires
            k <= a.len(),
            k <= b.len(),
            forall|m: int| 0 <= m < k ==> a[m] == b[m],
        ensures
            self.demand_of(a, k) == self.demand_of(b, k),
        decreases k,
    {
        if k > 0 {
            self.lemma_demand_agree(a, b, (k - 1) as nat);
        }
    }

    /// The total demand of clients put one after the other is the sum of
    /// the two total demands.
    pub proof fn lemma_demand_add(&self, a: Seq<usize>, b: Seq<usize>, k: nat)
        requires
            k <= b.len(),
        ensures
            self.demand_of(a + b, a.len() + k) == self.demand_of(a, a.len()) + self.demand_of(b, k),
            self.demand_of(b, k) >= 0,
        decreases k,
    {
        if k == 0 {
            self.lemma_demand_agree(a + b, a, a.len());
            assert(a.len() + 0 == a.len());
        } else {
            self.lemma_demand_add(a, b, (k - 1) as nat);
            assert((a + b)[a.len() + k - 1] == b[k - 1]);
        }
    }

    /// The total demand of the clients that stay is at most that of all.
    pub proof fn lemma_demand_staying(&self, ids: Seq<usize>, moved: Seq<usize>)
        ensures
            0 <= self.demand_of(staying(ids, moved), staying(ids, moved).len()) <= self.demand_of(
                ids,
                ids.len(),
            ),
        decreases ids.len(),
    {
        let pred = |id: usize| !moved.contains(id);
        reveal(Seq::filter);
        if ids.len() > 0 {
            let front = ids.drop_last();
            self.lemma_demand_staying(front, moved);
            self.lemma_demand_agree(ids, front, front.len());
            let kept = staying(front, moved);
            if pred(ids.last()) {
                assert(staying(ids, moved) == kept.push(ids.last()));
                self.lemma_demand_agree(kept.push(ids.last()), kept, kept.len());
            }
        }
    }
}

impl ProblemInstance {
    /// The clients of a route are those of its stops up to any stop,
    /// followed by those after it; so are their total demand and the
    /// number of times a client occurs.
    pub proof fn lemma_split(&self, r: RouteModel, k: int, c: usize)
        requires
            0 <= k <= r.clients.len(),
        ensures
            r.ids() =~= r.ids().take(k) + r.ids().skip(k),
            self.demand_of(r.ids().take(k), k as nat) == self.load(r.clients, k as nat),
            self.demand_of(r.ids().skip(k), (r.clients.len() - k) as nat) == self.load(
                r.clients,
                r.clients.len(),
            ) - self.load(r.clients, k as nat),
            count_in(r.ids(), c) == count_in(r.ids().take(k), c) + count_in(r.ids().skip(k), c),
    {
        let a = r.ids().take(k);
        let b = r.ids().skip(k);
        assert(r.ids() =~= a + b);
        self.lemma_load_is_demand(r.clients, r.clients.len());
        self.lemma_load_is_demand(r.clients, k as nat);
        self.lemma_demand_agree(r.ids(), a, k as nat);
        self.lemma_demand_add(a, b, b.len());
        lemma_count_add(a, b, c);
    }

    /// A route spliced from two routes that the search keeps is timed stop
    /// by stop, carries what its kept stops and the other route's tail
    /// demand, and has the clients of both parts.
    pub proof fn lemma_spliced_sound(
        &self,
        route: RouteModel,
        source: RouteModel,
        route_index: int,
        source_index: int,
        c: usize,
    )
        requires
            self.wf(),
            self.route_ok(route),
            self.route_ok(source),
            self.timed(route.clients),
            1 <= route_index <= route.clients.len(),
            0 <= source_index <= source.clients.len(),
            route_index + source.clients.len() - source_index <= MAX_STOPS,
        ensures
            self.timed(self.spliced(route, source, route_index, source_index).clients),
            self.load(
                self.spliced(route, source, route_index, source_index).clients,
                self.spliced(route, source, route_index, source_index).clients.len(),
            ) == self.load(route.clients, route_index as nat) + self.load(
                source.clients,
                source.clients.len(),
            ) - self.load(source.clients, source_index as nat),
            count_in(self.spliced(route, source, route_index, source_index).ids(), c) == count_in(
                route.ids().take(route_index),
                c,
            ) + count_in(source.ids().skip(source_index), c),
            self.costed(self.spliced(route, source, route_index, source_index)) == self.spliced(
                route,
                source,
                route_index,
                source_index,
            ),
    {
        let n = self.spliced(route, source, route_index, source_index);
        let e = n.clients;
        self.lemma_spliced_stops(route, source, route_index, source_index);
        assert forall|k: int| 1 <= k < e.len() implies #[trigger] self.timed_at(e, k, 0, 0) by {
            if k < route_index {
                assert(e[k] == route.clients[k]);
                assert(e[k - 1] == route.clients[k - 1]);
                assert(self.timed_at(route.clients, k, 0, 0));
            }
        }
        let a = route.ids().take(route_index);
        let b = source.ids().skip(source_index);
        assert(n.ids() =~= a + b) by {
            assert forall|m: int| 0 <= m < n.ids().len() implies n.ids()[m] == (a + b)[m] by {
                if m < route_index {
                    assert(e[m] == route.clients[m]);
                } else {
                    assert(e[m].client_id == source.clients[source_index + m
                        - route_index].client_id);
                }
            }
        }
        self.lemma_load_is_demand(e, e.len());
        self.lemma_demand_add(a, b, b.len());
        self.lemma_split(route, route_index, c);
        self.lemma_split(source, source_index, c);
        lemma_count_add(a, b, c);
        let again = self.costed(n);
        assert(again.clients == n.clients);
        assert(again =~= n);
    }

    /// The two routes that an exchange answers are as the search keeps
    /// them if the two old routes are, each for the vehicle of the route it
    /// comes from; together they cost less than the old ones and visit
    /// every client as often.
    pub proof fn lemma_exchange_sound(&self, r1: RouteModel, r2: RouteModel, i: int, j: int)
        requires
            self.wf(),
            self.route_sound(r1),
            self.route_sound(r2),
            0 <= i < r1.clients.len(),
            0 <= j < r2.clients.len(),
            self.opt2_step(r1, r2, i, j) is Some,
        ensures
            self.route_sound(self.opt2_step(r1, r2, i, j).unwrap().0),
            self.route_sound(self.opt2_step(r1, r2, i, j).unwrap().1),
            self.opt2_step(r1, r2, i, j).unwrap().0.vehicle_id == r1.vehicle_id,
            self.opt2_step(r1, r2, i, j).unwrap().1.vehicle_id == r2.vehicle_id,
            pair_cost(self.opt2_step(r1, r2, i, j).unwrap()) < pair_cost((r1, r2)),
            forall|c: usize|
                #[trigger] count_in(self.opt2_step(r1, r2, i, j).unwrap().0.ids(), c) + count_in(
                    self.opt2_step(r1, r2, i, j).unwrap().1.ids(),
                    c,
                ) == count_in(r1.ids(), c) + count_in(r2.ids(), c),
    {
        self.lemma_opt2_framed(r1, r2, i, j);
        self.lemma_spliced_sound(r1, r2, i + 1, j + 1, 0);
        self.lemma_spliced_sound(r2, r1, j + 1, i + 1, 0);
        let new = self.opt2_step(r1, r2, i, j).unwrap();
        assert forall|c: usize|
            #[trigger] count_in(new.0.ids(), c) + count_in(new.1.ids(), c) == count_in(r1.ids(), c)
                + count_in(r2.ids(), c) by {
            self.lemma_spliced_sound(r1, r2, i + 1, j + 1, c);
            self.lemma_spliced_sound(r2, r1, j + 1, i + 1, c);
            self.lemma_split(r1, i + 1, c);
            self.lemma_split(r2, j + 1, c);
        }
    }
}

/// A client that is moved does not occur among the clients that stay, and
/// any other occurs as often as before.
pub proof fn lemma_count_staying(ids: Seq<usize>, moved: Seq<usize>, c: usize)
    ensures
        count_in(staying(ids, moved), c) == (if moved.contains(c) {
            0
        } else {
            count_in(ids, c)
        }),
    decreases ids.len(),
{
    reveal(Seq::filter);
    if ids.len() == 0 {
        lemma_count_empty(c);
        assert(ids =~= Seq::<usize>::empty());
    } else {
        let front = ids.drop_last();
        lemma_count_staying(front, moved, c);
        assert(ids =~= front.push(ids.last()));
        lemma_count_push(front, ids.last(), c);
        if !moved.contains(ids.last()) {
            assert(staying(ids, moved) == staying(front, moved).push(ids.last()));
            lemma_count_push(staying(front, moved), ids.last(), c);
        }
    }
}

/// A client occurs among ids exactly if it occurs there at least once.
pub proof fn lemma_count_contains(ids: Seq<usize>, c: usize)
    ensures
        ids.contains(c) <==> count_in(ids, c) > 0,
{
    vstd::seq_lib::to_multiset_contains(ids, c);
}

impl ProblemInstance {
    /// The two routes that an insertion answers are as the search keeps
    /// them if the two old routes are, each for the vehicle of the route it
    /// comes from; together they cost less than the old ones.
    pub proof fn lemma_insertion_sound(
        &self,
        r1: RouteModel,
        r2: RouteModel,
        len: int,
        i: int,
        j: int,
    )
        requires
            self.wf(),
            self.route_sound(r1),
            self.route_sound(r2),
            0 <= len,
            0 <= i < r1.clients.len(),
            0 <= j < r2.clients.len(),
            self.insertion_step(r1, r2, len, i, j) is Some,
        ensures
            self.route_sound(self.insertion_step(r1, r2, len, i, j).unwrap().0),
            self.route_sound(self.insertion_step(r1, r2, len, i, j).unwrap().1),
            self.insertion_step(r1, r2, len, i, j).unwrap().0.vehicle_id == r1.vehicle_id,
            self.insertion_step(r1, r2, len, i, j).unwrap().1.vehicle_id == r2.vehicle_id,
            pair_cost(self.insertion_step(r1, r2, len, i, j).unwrap()) < pair_cost((r1, r2)),
    {
        self.lemma_insertion_framed(r1, r2, len, i, j);
        self.lemma_inserted_stops(r1, r2, i, j, len);
        let new = self.insertion_step(r1, r2, len, i, j).unwrap();
        let stops1 = self.grown(r1, r2, i, j, len);
        let stops2 = self.shrunk(r2, j, len);
        assert(new.0.clients == stops1);
        assert(new.1.clients == stops2);
        assert forall|k: int| 1 <= k < stops1.len() implies #[trigger] self.timed_at(
            stops1,
            k,
            0,
            0,
        ) by {
            if k <= i {
                assert(stops1[k] == r1.clients[k]);
                assert(stops1[k - 1] == r1.clients[k - 1]);
                assert(self.timed_at(r1.clients, k, 0, 0));
            }
        }
        // the second route carries no more than before
        let moved = r2.ids().subrange(j, j + len);
        assert(r2.ids().take(r2.clients.len() as int) =~= r2.ids());
        assert(stop_ids(stops2) =~= staying(r2.ids(), moved));
        self.lemma_load_is_demand(stops2, stops2.len());
        self.lemma_load_is_demand(r2.clients, r2.clients.len());
        self.lemma_demand_staying(r2.ids(), moved);
        let again1 = self.costed(new.0);
        let again2 = self.costed(new.1);
        assert(again1 =~= new.0);
        assert(again2 =~= new.1);
    }

    /// The two routes that an insertion answers visit every client as often
    /// as the two old ones, if the route that gives the clients visited no
    /// client but the depot more than once.
    pub proof fn lemma_insertion_counts(
        &self,
        r1: RouteModel,
        r2: RouteModel,
        len: int,
        i: int,
        j: int,
    )
        requires
            self.wf(),
            self.route_sound(r1),
            self.route_sound(r2),
            0 <= len,
            0 <= i < r1.clients.len(),
            0 <= j < r2.clients.len(),
            self.insertion_step(r1, r2, len, i, j) is Some,
            forall|c: usize| c != self.source ==> #[trigger] count_in(r2.ids(), c) <= 1,
        ensures
            forall|c: usize|
                #[trigger] count_in(self.insertion_step(r1, r2, len, i, j).unwrap().0.ids(), c)
                    + count_in(self.insertion_step(r1, r2, len, i, j).unwrap().1.ids(), c)
                    == count_in(r1.ids(), c) + count_in(r2.ids(), c),
    {
        self.lemma_insertion_framed(r1, r2, len, i, j);
        self.lemma_inserted_stops(r1, r2, i, j, len);
        let new = self.insertion_step(r1, r2, len, i, j).unwrap();
        let stops1 = self.grown(r1, r2, i, j, len);
        let stops2 = self.shrunk(r2, j, len);
        let moved = r2.ids().subrange(j, j + len);
        let head = r1.ids().take(i + 1);
        let tail = r1.ids().skip(i + 1);
        assert(r2.ids().take(r2.clients.len() as int) =~= r2.ids());
        assert(new.1.ids() =~= staying(r2.ids(), moved));
        assert(new.0.ids() =~= head + (moved + tail)) by {
            assert forall|m: int| 0 <= m < new.0.ids().len() implies new.0.ids()[m] == (head + (
            moved + tail))[m] by {
                if m <= i {
                    assert(stops1[m] == r1.clients[m]);
                } else {
                    assert(stops1[m].client_id == Self::grown_ids(r1, r2, i, j, len)[m - i - 1]);
                }
            }
        }
        assert(!moved.contains(self.source)) by {
            if moved.contains(self.source) {
                let x = choose|x: int| 0 <= x < moved.len() && moved[x] == self.source;
                assert(moved[x] == r2.clients[j + x].client_id);
            }
        }
        assert forall|c: usize|
            #[trigger] count_in(new.0.ids(), c) + count_in(new.1.ids(), c) == count_in(r1.ids(), c)
                + count_in(r2.ids(), c) by {
            lemma_count_add(head, moved + tail, c);
            lemma_count_add(moved, tail, c);
            self.lemma_split(r1, i + 1, c);
            lemma_count_staying(r2.ids(), moved, c);
            lemma_count_contains(moved, c);
            // the clients moved are among those of the route
            let before = r2.ids().take(j);
            let after = r2.ids().skip(j + len);
            assert(r2.ids() =~= before + (moved + after));
            lemma_count_add(before, moved + after, c);
            lemma_count_add(moved, after, c);
            if moved.contains(c) {
                assert(count_in(r2.ids(), c) <= 1);
            }
        }
    }
}

/// Only the first `k` routes matter to their total cost and time.
pub proof fn lemma_route_totals_agree(a: Seq<RouteModel>, b: Seq<RouteModel>, k: nat)
    requires
        k <= a.len(),
        k <= b.len(),
        forall|m: int| 0 <= m < k ==> a[m] == b[m],
    ensures
        total_cost(a, k) == total_cost(b, k),
        total_time(a, k) == total_time(b, k),
    decreases k,
{
    if k > 0 {
        lemma_route_totals_agree(a, b, (k - 1) as nat);
    }
}

/// The routes that cost something cost together what all routes cost; they
/// are among the routes, and no two of them are routes of one vehicle if
/// no two of all are.
pub proof fn lemma_costly(routes: Seq<RouteModel>)
    ensures
        total_cost(costly(routes), costly(routes).len()) == total_cost(routes, routes.len()),
        costly(routes).len() <= routes.len(),
        forall|k: int| 0 <= k < costly(routes).len() ==> routes.contains(#[trigger] costly(routes)[k]),
        one_route_each(routes) ==> one_route_each(costly(routes)),
        (forall|k: int| 0 <= k < routes.len() ==> (#[trigger] routes[k]).route_cost() > 0)
            ==> costly(routes) == routes,
    decreases routes.len(),
{
    reveal(Seq::filter);
    let pred = |r: RouteModel| r.route_cost() > 0;
    if routes.len() > 0 {
        let front = routes.drop_last();
        let last = routes.last();
        lemma_costly(front);
        lemma_route_totals_agree(routes, front, front.len());
        let kept = costly(front);
        assert forall|k: int| 0 <= k < kept.len() implies routes.contains(#[trigger] kept[k]) by {
            assert(front.contains(kept[k]));
            let x = choose|x: int| 0 <= x < front.len() && front[x] == kept[k];
            assert(routes[x] == kept[k]);
        }
        if pred(last) {
            assert(costly(routes) == kept.push(last));
            lemma_route_totals_agree(kept.push(last), kept, kept.len());
            assert(routes[routes.len() - 1] == last);
            if one_route_each(routes) {
                assert forall|a: int, b: int| 0 <= a < b < kept.len() + 1 implies (
                #[trigger] kept.push(last)[a]).vehicle_id != (
                #[trigger] kept.push(last)[b]).vehicle_id by {
                    if b == kept.len() {
                        assert(front.contains(kept[a]));
                        let x = choose|x: int| 0 <= x < front.len() && front[x] == kept[a];
                        assert(routes[x].vehicle_id != routes[routes.len() - 1].vehicle_id);
                    } else {
                        assert(kept[a].vehicle_id != kept[b].vehicle_id);
                    }
                }
            }
        } else {
            assert(costly(routes) == kept);
        }
        if one_route_each(routes) {
            assert(one_route_each(front)) by {
                assert forall|a: int, b: int| 0 <= a < b < front.len() implies (
                #[trigger] front[a]).vehicle_id != (#[trigger] front[b]).vehicle_id by {
                    assert(routes[a].vehicle_id != routes[b].vehicle_id);
                }
            }
        }
        if forall|k: int| 0 <= k < routes.len() ==> (#[trigger] routes[k]).route_cost() > 0 {
            assert forall|k: int| 0 <= k < front.len() implies (#[trigger] front[k]).route_cost()
                > 0 by {
                assert(routes[k].route_cost() > 0);
            }
            assert(routes[routes.len() - 1].route_cost() > 0);
            assert(kept.push(last) =~= routes);
        }
    }
}

/// Where the routes that cost nothing do not visit a client, it is visited
/// by the routes that cost something as often as by all.
pub proof fn lemma_costly_visits(routes: Seq<RouteModel>, c: usize)
    requires
        forall|k: int|
            0 <= k < routes.len() && (#[trigger] routes[k]).route_cost() == 0 ==> count_in(
                routes[k].ids(),
                c,
            ) == 0,
    ensures
        visits(route_ids(costly(routes)), c, costly(routes).len()) == visits(
            route_ids(routes),
            c,
            routes.len(),
        ),
    decreases routes.len(),
{
    reveal(Seq::filter);
    let pred = |r: RouteModel| r.route_cost() > 0;
    if routes.len() > 0 {
        let front = routes.drop_last();
        let last = routes.last();
        assert forall|k: int| 0 <= k < front.len() && (#[trigger] front[k]).route_cost()
            == 0 implies count_in(front[k].ids(), c) == 0 by {
            assert(routes[k] == front[k]);
        }
        lemma_costly_visits(front, c);
        lemma_visits_agree(route_ids(routes), route_ids(front), c, front.len());
        let kept = costly(front);
        assert(routes[routes.len() - 1] == last);
        if pred(last) {
            assert(costly(routes) == kept.push(last));
            lemma_visits_agree(route_ids(kept.push(last)), route_ids(kept), c, kept.len());
        } else {
            assert(costly(routes) == kept);
        }
    }
}

/// Where one route changes, the total cost changes by what the new route
/// costs more or less.
pub proof fn lemma_total_cost_update(a: Seq<RouteModel>, b: Seq<RouteModel>, v: int, k: nat)
    requires
        a.len() == b.len(),
        0 <= v < a.len(),
        k <= a.len(),
        forall|m: int| 0 <= m < a.len() && m != v ==> a[m] == b[m],
    ensures
        total_cost(b, k) + (if v < k {
            a[v].route_cost()
        } else {
            0
        }) == total_cost(a, k) + (if v < k {
            b[v].route_cost()
        } else {
            0
        }),
    decreases k,
{
    if k > 0 {
        lemma_total_cost_update(a, b, v, (k - 1) as nat);
    }
}

/// Where no two routes are routes of one vehicle, two new routes take the
/// places of the routes of their vehicles, and of no other.
pub proof fn lemma_swapped_two(routes: Seq<RouteModel>, a: int, b: int, new: (RouteModel, RouteModel))
    requires
        one_route_each(routes),
        0 <= a < routes.len(),
        0 <= b < routes.len(),
        a != b,
        new.0.vehicle_id == routes[a].vehicle_id,
        new.1.vehicle_id == routes[b].vehicle_id,
    ensures
        swapped(routes, new.0, new.1) == routes.update(a, new.0).update(b, new.1),
        one_route_each(swapped(routes, new.0, new.1)),
{
    let s = swapped(routes, new.0, new.1);
    let u = routes.update(a, new.0).update(b, new.1);
    assert forall|k: int| 0 <= k < routes.len() implies s[k] == u[k] by {
        if k != a {
            if k < a {
                assert(routes[k].vehicle_id != routes[a].vehicle_id);
            } else {
                assert(routes[a].vehicle_id != routes[k].vehicle_id);
            }
        }
        if k != b {
            if k < b {
                assert(routes[k].vehicle_id != routes[b].vehicle_id);
            } else {
                assert(routes[b].vehicle_id != routes[k].vehicle_id);
            }
        }
    }
    assert(s =~= u);
    assert forall|x: int, y: int| 0 <= x < y < s.len() implies (#[trigger] s[x]).vehicle_id != (
    #[trigger] s[y]).vehicle_id by {
        assert(s[x].vehicle_id == routes[x].vehicle_id);
        assert(s[y].vehicle_id == routes[y].vehicle_id);
    }
}

impl ProblemInstance {
    /// No two clients are at the same place: the travel between any two
    /// takes time.
    pub open spec fn apart(&self) -> bool {
        forall|a: int, b: int|
            0 <= a < self.clients.len() && 0 <= b < self.clients.len() && a != b
                ==> #[trigger] self.dist(a, b) > 0
    }

    /// Every visit costs something: each vehicle costs something to use, or
    /// else costs something per tick while no two clients are at the same
    /// place.
    pub open spec fn pays_for_visits(&self) -> bool {
        forall|v: int|
            0 <= v < self.vehicles.len() ==> (#[trigger] self.vehicles@[v]).fixed_cost > 0 || (
            self.vehicles@[v].variable_cost > 0 && self.apart())
    }

    /// Stops that take no travel time, where no two clients are at the
    /// same place, are all at the client of the first.
    pub proof fn lemma_still(&self, clients: Seq<RouteEntryClient>, k: nat)
        requires
            self.wf(),
            self.apart(),
            self.stops_known(clients),
            1 <= k <= clients.len(),
            self.travel_time(clients, k) == 0,
        ensures
            forall|m: int| 0 <= m < k ==> (#[trigger] clients[m]).client_id == clients[0].client_id,
        decreases k,
    {
        if k > 1 {
            self.lemma_totals_bounded(clients, (k - 1) as nat);
            self.lemma_still(clients, (k - 1) as nat);
            let a = clients[k - 2].client_id as int;
            let b = clients[k - 1].client_id as int;
            assert(self.arc_into(clients, k - 1) == 0);
            if a != b {
                assert(self.dist(a, b) > 0);
            }
        }
    }

    /// A route that the search keeps and that costs nothing visits no
    /// client but the depot, where every visit costs something.
    pub proof fn lemma_free_route(&self, r: RouteModel, c: usize)
        requires
            self.wf(),
            self.pays_for_visits(),
            self.route_sound(r),
            r.route_cost() == 0,
            c != self.source,
        ensures
            count_in(r.ids(), c) == 0,
    {
        let v = r.vehicle_id as int;
        let n = r.clients.len();
        assert(self.vehicles@[v].fixed_cost > 0 || (self.vehicles@[v].variable_cost > 0
            && self.apart()));
        self.lemma_costed_ok(r);
        self.lemma_totals_bounded(r.clients, n);
        let t = self.travel_time(r.clients, n);
        let rate = self.vehicles@[v].variable_cost as int;
        assert(t == 0) by (nonlinear_arith)
            requires
                t * rate == 0,
                rate > 0,
                t >= 0,
        ;
        self.lemma_still(r.clients, n);
        lemma_count_contains(r.ids(), c);
        if r.ids().contains(c) {
            let x = choose|x: int| 0 <= x < r.ids().len() && r.ids()[x] == c;
            assert(r.clients[x].client_id == r.clients[0].client_id);
        }
    }

    /// A solution that the search keeps is kept by a step that puts two
    /// routes which the search keeps, and which together cost less, in the
    /// places of two routes of the same vehicles: the new solution is as
    /// the search keeps it, and its value is less.
    pub proof fn lemma_step_sound(
        &self,
        sol: SolutionModel,
        a: int,
        b: int,
        new: (RouteModel, RouteModel),
    )
        requires
            self.wf(),
            self.sound(sol),
            0 <= a < sol.routes.len(),
            0 <= b < sol.routes.len(),
            sol.routes[a].vehicle_id != sol.routes[b].vehicle_id,
            self.route_sound(new.0),
            self.route_sound(new.1),
            new.0.vehicle_id == sol.routes[a].vehicle_id,
            new.1.vehicle_id == sol.routes[b].vehicle_id,
            pair_cost(new) < pair_cost((sol.routes[a], sol.routes[b])),
        ensures
            self.sound(rebuilt(sol, new)),
            self.solution_ok(rebuilt(sol, new)),
            rebuilt(sol, new).value < sol.value,
            rebuilt(sol, new).construction_value == sol.construction_value,
            rebuilt(sol, new).iter_found == sol.iter_found,
    {
        let all = swapped(sol.routes, new.0, new.1);
        let kept = costly(all);
        let next = rebuilt(sol, new);
        lemma_swapped_two(sol.routes, a, b, new);
        lemma_costly(all);
        assert forall|k: int| 0 <= k < all.len() implies self.route_sound(#[trigger] all[k]) by {
            assert(self.route_sound(sol.routes[k]));
        }
        assert forall|k: int| 0 <= k < kept.len() implies self.route_sound(#[trigger] kept[k]) by {
            assert(all.contains(kept[k]));
            let x = choose|x: int| 0 <= x < all.len() && all[x] == kept[k];
            assert(self.route_sound(all[x]));
        }
        assert(self.solution_ok(next)) by {
            assert forall|k: int| 0 <= k < kept.len() implies self.route_ok(#[trigger] kept[k])
                && self.framed(kept[k].clients) by {
                assert(self.route_sound(kept[k]));
            }
        }
        self.lemma_solution_fits(next);
        // the total cost
        let mid = sol.routes.update(a, new.0);
        lemma_total_cost_update(sol.routes, mid, a, sol.routes.len());
        lemma_total_cost_update(mid, all, b, sol.routes.len());
        assert(mid[b] == sol.routes[b]);
    }

    /// A step that keeps how often each client is visited by the two
    /// routes it changes keeps every client but the depot visited exactly
    /// once, where every visit costs something.
    pub proof fn lemma_step_covers(
        &self,
        sol: SolutionModel,
        a: int,
        b: int,
        new: (RouteModel, RouteModel),
    )
        requires
            self.wf(),
            self.sound(sol),
            self.covers(sol),
            self.pays_for_visits(),
            0 <= a < sol.routes.len(),
            0 <= b < sol.routes.len(),
            sol.routes[a].vehicle_id != sol.routes[b].vehicle_id,
            self.route_sound(new.0),
            self.route_sound(new.1),
            new.0.vehicle_id == sol.routes[a].vehicle_id,
            new.1.vehicle_id == sol.routes[b].vehicle_id,
            forall|c: usize|
                #[trigger] count_in(new.0.ids(), c) + count_in(new.1.ids(), c) == count_in(
                    sol.routes[a].ids(),
                    c,
                ) + count_in(sol.routes[b].ids(), c),
        ensures
            self.covers(rebuilt(sol, new)),
    {
        let all = swapped(sol.routes, new.0, new.1);
        lemma_swapped_two(sol.routes, a, b, new);
        assert forall|k: int| 0 <= k < all.len() implies self.route_sound(#[trigger] all[k]) by {
            assert(self.route_sound(sol.routes[k]));
        }
        let mid = sol.routes.update(a, new.0);
        let n = sol.routes.len();
        assert forall|c: usize| c < self.clients.len() && c != self.source implies #[trigger] visits(
            route_ids(costly(all)),
            c,
            costly(all).len(),
        ) == 1 by {
            assert forall|k: int| 0 <= k < all.len() && (#[trigger] all[k]).route_cost()
                == 0 implies count_in(all[k].ids(), c) == 0 by {
                self.lemma_free_route(all[k], c);
            }
            lemma_costly_visits(all, c);
            lemma_visits_update(route_ids(sol.routes), route_ids(mid), a, c, n);
            lemma_visits_update(route_ids(mid), route_ids(all), b, c, n);
            assert(route_ids(mid)[b] == sol.routes[b].ids());
            assert(visits(route_ids(sol.routes), c, n) == 1);
        }
    }

    /// A solution that the search keeps is kept by an exchange of tails:
    /// the new solution is as the search keeps it, its value is less, and
    /// its construction value is the same.
    pub proof fn law_exchange_keeps_sound(&self, sol: SolutionModel, new: SolutionModel)
        requires
            self.wf(),
            self.sound(sol),
            self.exchanged(sol, new),
        ensures
            self.sound(new),
            self.solution_ok(new),
            new.value < sol.value,
            new.construction_value == sol.construction_value,
            new.iter_found == sol.iter_found,
    {
        let (a, b) = choose|a: int, b: int| #[trigger] self.exchange_between(sol, new, a, b);
        let (i, j) = choose|i: int, j: int| #[trigger] self.exchange_from(sol, new, a, b, i, j);
        assert(self.route_sound(sol.routes[a]));
        assert(self.route_sound(sol.routes[b]));
        self.lemma_exchange_sound(sol.routes[a], sol.routes[b], i, j);
        self.lemma_step_sound(sol, a, b, self.opt2_step(sol.routes[a], sol.routes[b], i, j).unwrap());
    }

    /// An exchange of tails keeps every client but the depot visited
    /// exactly once, where every visit costs something.
    pub proof fn law_exchange_keeps_cover(&self, sol: SolutionModel, new: SolutionModel)
        requires
            self.wf(),
            self.sound(sol),
            self.covers(sol),
            self.pays_for_visits(),
            self.exchanged(sol, new),
        ensures
            self.covers(new),
    {
        let (a, b) = choose|a: int, b: int| #[trigger] self.exchange_between(sol, new, a, b);
        let (i, j) = choose|i: int, j: int| #[trigger] self.exchange_from(sol, new, a, b, i, j);
        assert(self.route_sound(sol.routes[a]));
        assert(self.route_sound(sol.routes[b]));
        self.lemma_exchange_sound(sol.routes[a], sol.routes[b], i, j);
        self.lemma_step_covers(
            sol,
            a,
            b,
            self.opt2_step(sol.routes[a], sol.routes[b], i, j).unwrap(),
        );
    }

    /// A solution that the search keeps is kept by an insertion: the new
    /// solution is as the search keeps it, its value is less, and its
    /// construction value is the same.
    pub proof fn law_insertion_keeps_sound(&self, sol: SolutionModel, new: SolutionModel, len: int)
        requires
            self.wf(),
            self.sound(sol),
            0 <= len,
            self.inserted_into(sol, new, len),
        ensures
            self.sound(new),
            self.solution_ok(new),
            new.value < sol.value,
            new.construction_value == sol.construction_value,
            new.iter_found == sol.iter_found,
    {
        let (a, b) = choose|a: int, b: int| #[trigger] self.insertion_between(sol, new, len, a, b);
        let (i, j) = choose|i: int, j: int| #[trigger]
            self.insertion_from(sol, new, len, a, b, i, j);
        assert(self.route_sound(sol.routes[a]));
        assert(self.route_sound(sol.routes[b]));
        self.lemma_insertion_sound(sol.routes[a], sol.routes[b], len, i, j);
        self.lemma_step_sound(
            sol,
            a,
            b,
            self.insertion_step(sol.routes[a], sol.routes[b], len, i, j).unwrap(),
        );
    }

    /// An insertion keeps every client but the depot visited exactly once,
    /// where every visit costs something.
    pub proof fn law_insertion_keeps_cover(&self, sol: SolutionModel, new: SolutionModel, len: int)
        requires
            self.wf(),
            self.sound(sol),
            self.covers(sol),
            self.pays_for_visits(),
            0 <= len,
            self.inserted_into(sol, new, len),
        ensures
            self.covers(new),
    {
        let (a, b) = choose|a: int, b: int| #[trigger] self.insertion_between(sol, new, len, a, b);
        let (i, j) = choose|i: int, j: int| #[trigger]
            self.insertion_from(sol, new, len, a, b, i, j);
        assert(self.route_sound(sol.routes[a]));
        assert(self.route_sound(sol.routes[b]));
        self.lemma_insertion_sound(sol.routes[a], sol.routes[b], len, i, j);
        // the route that gives the clients visits each at most once
        assert forall|c: usize| c != self.source implies #[trigger] count_in(
            sol.routes[b].ids(),
            c,
        ) <= 1 by {
            if c < self.clients.len() {
                self.lemma_visits_bound(sol.routes, b, c, sol.routes.len());
                assert(visits(route_ids(sol.routes), c, sol.routes.len()) == 1);
            } else {
                // a client that is not known is visited by no route
                lemma_count_contains(sol.routes[b].ids(), c);
                if sol.routes[b].ids().contains(c) {
                    let x = choose|x: int|
                        0 <= x < sol.routes[b].ids().len() && sol.routes[b].ids()[x] == c;
                    assert(sol.routes[b].clients[x].client_id < self.clients.len());
                }
            }
        }
        self.lemma_insertion_counts(sol.routes[a], sol.routes[b], len, i, j);
        self.lemma_step_covers(
            sol,
            a,
            b,
            self.insertion_step(sol.routes[a], sol.routes[b], len, i, j).unwrap(),
        );
    }

    /// A client is visited by one route at most as often as by all.
    pub proof fn lemma_visits_bound(&self, routes: Seq<RouteModel>, b: int, c: usize, k: nat)
        requires
            0 <= b < k <= routes.len(),
        ensures
            count_in(routes[b].ids(), c) <= visits(route_ids(routes), c, k),
        decreases k,
    {
        if b < k - 1 {
            self.lemma_visits_bound(routes, b, c, (k - 1) as nat);
        }
    }
}

} // verus!
