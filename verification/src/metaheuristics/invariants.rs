use vstd::prelude::*;
use super::insertion_search::staying;
use super::schedule::{LATEST_ARRIVAL, TIME_CAP, VARIABLE_CAP};
use super::utils::{costly, swapped};
use crate::types::others::{
    Cost, RouteEntry, RouteEntryClient, RouteModel, Time, HORIZON, LIMIT, MAX_ROUTES, MAX_STOPS,
};
use crate::types::problem_instance::{client_ok, ProblemInstance};
use crate::types::solution::{total_cost, total_time, Solution, SolutionModel};

verus! {

/// No two of the routes are routes of one vehicle.
pub open spec fn one_route_each(routes: Seq<RouteModel>) -> bool {
    forall|a: int, b: int|
        0 <= a < b < routes.len() ==> (#[trigger] routes[a]).vehicle_id != (
        #[trigger] routes[b]).vehicle_id
}

impl ProblemInstance {
    /// The route starts and ends at the depot and visits no depot in
    /// between.
    pub open spec fn framed(&self, clients: Seq<RouteEntryClient>) -> bool {
        &&& clients.len() >= 2
        &&& clients[0].client_id == self.source
        &&& clients.last().client_id == self.source
        &&& forall|k: int| 0 < k < clients.len() - 1 ==> (#[trigger] clients[k]).client_id != self.source
    }

    /// Every stop but the first and the last is reached in time from the
    /// stop before it.
    pub open spec fn on_time_until_return(&self, clients: Seq<RouteEntryClient>) -> bool {
        forall|m: int|
            1 <= m < clients.len() - 1 ==> #[trigger] self.feasible(
                clients[m - 1].client_id as int,
                clients[m].client_id as int,
                clients[m - 1].leave_time as int,
            )
    }

    /// The route is as the search keeps it: it can be handled, it is
    /// framed by the depot, every stop is timed from the stop before it,
    /// its vehicle can carry its load, and its time, costs and load are
    /// those derived from its stops.
    pub open spec fn route_sound(&self, r: RouteModel) -> bool {
        &&& self.route_ok(r)
        &&& self.framed(r.clients)
        &&& self.timed(r.clients)
        &&& self.load(r.clients, r.clients.len()) <= self.vehicles@[r.vehicle_id as int].capacity
        &&& r == self.costed(r)
    }

    /// The solution is as the search keeps it: it has at most `MAX_ROUTES`
    /// routes, each as the search keeps it and no two for one vehicle, and
    /// its value and distance are the total cost and time of its routes.
    pub open spec fn sound(&self, sol: SolutionModel) -> bool {
        &&& sol.routes.len() <= MAX_ROUTES
        &&& forall|k: int| 0 <= k < sol.routes.len() ==> self.route_sound(#[trigger] sol.routes[k])
        &&& one_route_each(sol.routes)
        &&& sol.evaluated()
    }

    /// The solution can be searched: it has at most `MAX_ROUTES` routes,
    /// and each can be handled and is framed by the depot.
    pub open spec fn solution_ok(&self, sol: SolutionModel) -> bool {
        &&& sol.routes.len() <= MAX_ROUTES
        &&& forall|k: int|
            0 <= k < sol.routes.len() ==> self.route_ok(#[trigger] sol.routes[k]) && self.framed(
                sol.routes[k].clients,
            )
    }

    /// The total cost and the total time of routes that can be handled are
    /// bounded by their number.
    pub proof fn lemma_totals_fit(&self, routes: Seq<RouteModel>, k: nat)
        requires
            k <= routes.len(),
            forall|m: int| 0 <= m < routes.len() ==> self.route_ok(#[trigger] routes[m]),
        ensures
            0 <= total_cost(routes, k) <= k * (LIMIT + VARIABLE_CAP),
            0 <= total_time(routes, k) <= k * TIME_CAP,
        decreases k,
    {
        if k > 0 {
            self.lemma_totals_fit(routes, (k - 1) as nat);
            assert(self.route_ok(routes[k - 1]));
            assert((k - 1) * (LIMIT + VARIABLE_CAP) + (LIMIT + VARIABLE_CAP) == k * (LIMIT
                + VARIABLE_CAP)) by (nonlinear_arith);
            assert((k - 1) * TIME_CAP + TIME_CAP == k * TIME_CAP) by (nonlinear_arith);
        }
    }

    /// The cost and the time of a solution that can be searched fit the
    /// machine's integers.
    pub proof fn lemma_solution_fits(&self, sol: SolutionModel)
        requires
            self.solution_ok(sol),
        ensures
            0 <= sol.cost() <= u128::MAX,
            0 <= sol.time() <= u64::MAX,
            forall|k: int|
                0 <= k < sol.routes.len() ==> (#[trigger] sol.routes[k]).route_cost() <= u128::MAX,
    {
        let n = sol.routes.len();
        self.lemma_totals_fit(sol.routes, n);
        assert(LIMIT == 0x4000_0000 && MAX_ROUTES == 0x1_0000 && VARIABLE_CAP
            == 0x1000_0000_0000_0000_0000 && TIME_CAP == 0x4000_0000_0000);
        assert(n * (LIMIT + VARIABLE_CAP) <= MAX_ROUTES * (LIMIT + VARIABLE_CAP))
            by (nonlinear_arith)
            requires
                n <= MAX_ROUTES,
        ;
        assert(n * TIME_CAP <= MAX_ROUTES * TIME_CAP) by (nonlinear_arith)
            requires
                n <= MAX_ROUTES,
        ;
        assert forall|k: int| 0 <= k < sol.routes.len() implies (#[trigger] sol.routes[k]).route_cost()
            <= u128::MAX by {
            assert(self.route_ok(sol.routes[k]));
        }
    }

    /// A solution that can be searched can be searched still after two
    /// routes that can be handled and are framed have taken the places of
    /// those of their vehicles.
    pub proof fn lemma_swapped_ok(&self, sol: SolutionModel, new: (RouteModel, RouteModel))
        requires
            self.solution_ok(sol),
            self.route_ok(new.0),
            self.route_ok(new.1),
            self.framed(new.0.clients),
            self.framed(new.1.clients),
        ensures
            self.solution_ok(SolutionModel { routes: costly(swapped(sol.routes, new.0, new.1)), ..sol }),
    {
        let all = swapped(sol.routes, new.0, new.1);
        let pred = |r: RouteModel| r.route_cost() > 0;
        let kept = all.filter(pred);
        all.lemma_filter_len(pred);
        assert forall|k: int| 0 <= k < kept.len() implies self.route_ok(#[trigger] kept[k])
            && self.framed(kept[k].clients) by {
            assert(kept.contains(kept[k]));
            all.lemma_filter_contains_rev(pred, kept[k]);
            let x = choose|x: int| 0 <= x < all.len() && all[x] == kept[k];
            assert(self.route_ok(sol.routes[x]));
        }
    }
}

impl ProblemInstance {
    /// The stops of a spliced route: the stops kept, then a stop at each
    /// client of the other route's tail, timed from the stop before it.
    pub proof fn lemma_spliced_stops(
        &self,
        route: RouteModel,
        source: RouteModel,
        route_index: int,
        source_index: int,
    )
        requires
            self.wf(),
            self.route_ok(route),
            self.route_ok(source),
            1 <= route_index <= route.clients.len(),
            0 <= source_index <= source.clients.len(),
            route_index + source.clients.len() - source_index <= MAX_STOPS,
        ensures
            self.spliced(route, source, route_index, source_index).vehicle_id == route.vehicle_id,
            self.spliced(route, source, route_index, source_index).clients.len() == route_index
                + source.clients.len() - source_index,
            forall|m: int|
                0 <= m < route_index ==> (#[trigger] self.spliced(
                    route,
                    source,
                    route_index,
                    source_index,
                ).clients[m]) == route.clients[m],
            forall|m: int|
                route_index <= m < route_index + source.clients.len() - source_index ==> (
                #[trigger] self.spliced(route, source, route_index, source_index).clients[m]).client_id
                    == source.clients[source_index + m - route_index].client_id,
            forall|m: int|
                route_index <= m < route_index + source.clients.len() - source_index
                    ==> #[trigger] self.timed_at(
                    self.spliced(route, source, route_index, source_index).clients,
                    m,
                    0,
                    0,
                ),
    {
        let base = route.clients.take(route_index);
        let ids = source.ids().skip(source_index);
        let k = (source.clients.len() - source_index) as nat;
        let t = self.clients@[self.source as int].earliest;
        let e = self.extended(base, self.source as int, t, ids, k);
        assert(LIMIT == 0x4000_0000 && HORIZON == 0x1000_0000_0000_0000 && MAX_STOPS == 0x1_0000);
        assert(2 * LIMIT * k <= 2 * LIMIT * MAX_STOPS) by (nonlinear_arith)
            requires
                k <= MAX_STOPS,
        ;
        assert(base.last() == route.clients[route_index - 1]);
        assert forall|m: int| 0 <= m < ids.len() implies (#[trigger] ids[m]) < self.clients.len() by {
            assert(source.clients[source_index + m].client_id < self.clients.len());
        }
        self.lemma_extended_chain(base, self.source as int, t, ids, k);
        assert forall|m: int| route_index <= m < route_index + k implies #[trigger] self.timed_at(
            e,
            m,
            0,
            0,
        ) by {
            assert(self.timed_at(e, m, self.source as int, t));
        }
    }

    /// The two routes that an exchange answers can be handled and are
    /// framed by the depot, each for the vehicle of the route it comes
    /// from.
    pub proof fn lemma_opt2_framed(&self, r1: RouteModel, r2: RouteModel, i: int, j: int)
        requires
            self.wf(),
            self.route_ok(r1),
            self.route_ok(r2),
            self.framed(r1.clients),
            self.framed(r2.clients),
            0 <= i < r1.clients.len(),
            0 <= j < r2.clients.len(),
            self.opt2_step(r1, r2, i, j) is Some,
        ensures
            self.route_ok(self.opt2_step(r1, r2, i, j).unwrap().0),
            self.route_ok(self.opt2_step(r1, r2, i, j).unwrap().1),
            self.framed(self.opt2_step(r1, r2, i, j).unwrap().0.clients),
            self.framed(self.opt2_step(r1, r2, i, j).unwrap().1.clients),
            self.opt2_step(r1, r2, i, j).unwrap().0.vehicle_id == r1.vehicle_id,
            self.opt2_step(r1, r2, i, j).unwrap().1.vehicle_id == r2.vehicle_id,
    {
        self.lemma_spliced_ok(r1, r2, i + 1, j + 1);
        self.lemma_spliced_ok(r2, r1, j + 1, i + 1);
        self.lemma_spliced_stops(r1, r2, i + 1, j + 1);
        self.lemma_spliced_stops(r2, r1, j + 1, i + 1);
        let n1 = self.spliced(r1, r2, i + 1, j + 1).clients;
        let n2 = self.spliced(r2, r1, j + 1, i + 1).clients;
        assert(n1[0] == r1.clients[0]);
        assert(n2[0] == r2.clients[0]);
        assert forall|k: int| 0 < k < n1.len() - 1 implies (#[trigger] n1[k]).client_id
            != self.source by {
            if k < i + 1 {
                assert(n1[k] == r1.clients[k]);
            } else {
                assert(n1[k].client_id == r2.clients[j + 1 + k - (i + 1)].client_id);
            }
        }
        assert forall|k: int| 0 < k < n2.len() - 1 implies (#[trigger] n2[k]).client_id
            != self.source by {
            if k < j + 1 {
                assert(n2[k] == r2.clients[k]);
            } else {
                assert(n2[k].client_id == r1.clients[i + 1 + k - (j + 1)].client_id);
            }
        }
        assert(n1.last().client_id == r2.clients[j + 1 + (n1.len() - 1) - (i + 1)].client_id);
        assert(n2.last().client_id == r1.clients[i + 1 + (n2.len() - 1) - (j + 1)].client_id);
    }
}

/// The clients of a framed route that stay when interior stops are moved
/// away: the depot, the interior clients that stay, and the depot.
pub proof fn lemma_kept_framed(ids: Seq<usize>, moved: Seq<usize>, depot: usize)
    requires
        ids.len() >= 2,
        ids[0] == depot,
        ids.last() == depot,
        forall|k: int| 0 < k < ids.len() - 1 ==> ids[k] != depot,
        !moved.contains(depot),
    ensures
        staying(ids, moved).len() >= 2,
        staying(ids, moved)[0] == depot,
        staying(ids, moved).last() == depot,
        forall|k: int| 0 < k < staying(ids, moved).len() - 1 ==> #[trigger] staying(ids, moved)[k] != depot,
{
    let pred = |id: usize| !moved.contains(id);
    let mid = ids.subrange(1, ids.len() - 1);
    let one = seq![depot];
    assert(ids =~= one + mid + one);
    reveal_with_fuel(Seq::filter, 2);
    assert(one.drop_last() =~= Seq::<usize>::empty());
    assert(one.filter(pred) =~= one);
    Seq::filter_distributes_over_add(one, mid, pred);
    Seq::filter_distributes_over_add(one + mid, one, pred);
    let kept_mid = mid.filter(pred);
    assert(ids.filter(pred) =~= one + kept_mid + one);
    assert forall|k: int| 0 < k < ids.filter(pred).len() - 1 implies ids.filter(pred)[k]
        != depot by {
        assert(ids.filter(pred)[k] == kept_mid[k - 1]);
        assert(kept_mid.contains(kept_mid[k - 1]));
        mid.lemma_filter_contains_rev(pred, kept_mid[k - 1]);
        let x = choose|x: int| 0 <= x < mid.len() && mid[x] == kept_mid[k - 1];
        assert(mid[x] == ids[x + 1]);
    }
}

impl ProblemInstance {
    /// The stops of the two routes after an insertion that can be made:
    /// the first route keeps its stops up to the insertion, then has a stop
    /// at each client moved and at each of its own that followed; the
    /// second has a stop at each client that it keeps. Every new stop is
    /// timed from the stop before it, and both routes can be handled.
    pub proof fn lemma_inserted_stops(&self, r1: RouteModel, r2: RouteModel, i: int, j: int, len: int)
        requires
            self.wf(),
            self.route_ok(r1),
            self.route_ok(r2),
            0 <= i < r1.clients.len(),
            0 <= j,
            0 <= len,
            j + len <= r2.clients.len(),
            r2.clients.len() > 0,
            r1.clients.len() + len <= MAX_STOPS,
            self.inserted(r1, r2, i, j, len) is Some,
        ensures
            self.route_ok(self.inserted(r1, r2, i, j, len).unwrap().0),
            self.route_ok(self.inserted(r1, r2, i, j, len).unwrap().1),
            self.inserted(r1, r2, i, j, len).unwrap().0.vehicle_id == r1.vehicle_id,
            self.inserted(r1, r2, i, j, len).unwrap().1.vehicle_id == r2.vehicle_id,
            self.inserted(r1, r2, i, j, len).unwrap().0.clients == self.grown(r1, r2, i, j, len),
            self.inserted(r1, r2, i, j, len).unwrap().1.clients == self.shrunk(r2, j, len),
            self.grown(r1, r2, i, j, len).len() == r1.clients.len() + len,
            forall|m: int|
                0 <= m <= i ==> (#[trigger] self.grown(r1, r2, i, j, len)[m]) == r1.clients[m],
            forall|m: int|
                i < m < r1.clients.len() + len ==> (#[trigger] self.grown(
                    r1,
                    r2,
                    i,
                    j,
                    len,
                )[m]).client_id == Self::grown_ids(r1, r2, i, j, len)[m - i - 1],
            forall|m: int|
                i < m < r1.clients.len() + len ==> #[trigger] self.timed_at(
                    self.grown(r1, r2, i, j, len),
                    m,
                    0,
                    0,
                ),
            self.shrunk(r2, j, len).len() == Self::kept_ids(r2, j, len, r2.clients.len() as int).len(),
            self.shrunk(r2, j, len).len() <= r2.clients.len(),
            forall|m: int|
                0 <= m < self.shrunk(r2, j, len).len() ==> (#[trigger] self.shrunk(
                    r2,
                    j,
                    len,
                )[m]).client_id == Self::kept_ids(r2, j, len, r2.clients.len() as int)[m],
            forall|m: int|
                1 <= m < self.shrunk(r2, j, len).len() ==> #[trigger] self.timed_at(
                    self.shrunk(r2, j, len),
                    m,
                    0,
                    0,
                ),
    {
        let src = self.source as int;
        let opens = self.clients@[src].earliest;
        let base = r1.clients.take(i + 1);
        let ids = Self::grown_ids(r1, r2, i, j, len);
        let stops1 = self.grown(r1, r2, i, j, len);
        let stops2 = self.shrunk(r2, j, len);
        assert(LIMIT == 0x4000_0000 && HORIZON == 0x1000_0000_0000_0000 && MAX_STOPS == 0x1_0000
            && LATEST_ARRIVAL == 0x8_0000_0000_0000);
        // the first route
        assert forall|m: int| 0 <= m < ids.len() implies (#[trigger] ids[m]) < self.clients.len() by {
            if m < len {
                assert(ids[m] == r2.clients[j + m].client_id);
            } else {
                assert(ids[m] == r1.clients[i + 1 + m - len].client_id);
            }
        }
        assert(2 * LIMIT * ids.len() <= 2 * LIMIT * MAX_STOPS) by (nonlinear_arith)
            requires
                ids.len() <= MAX_STOPS,
        ;
        assert(base.last() == r1.clients[i]);
        self.lemma_extended_chain(base, src, opens, ids, ids.len());
        assert forall|m: int| i < m < r1.clients.len() + len implies #[trigger] self.timed_at(
            stops1,
            m,
            0,
            0,
        ) by {
            assert(self.timed_at(stops1, m, src, opens));
        }
        assert forall|m: int| 0 <= m < stops1.len() implies (#[trigger] stops1[m]).leave_time
            <= HORIZON by {
            if m <= i {
                assert(stops1[m] == r1.clients[m]);
            } else {
                assert(self.timed_at(stops1, m, src, opens));
                assert(self.feasible(
                    stops1[m - 1].client_id as int,
                    stops1[m].client_id as int,
                    stops1[m - 1].leave_time as int,
                ));
                assert(stops1[m - 1].client_id < self.clients.len());
                assert(stops1[m].client_id < self.clients.len());
                self.lemma_feasible_bound(
                    stops1[m - 1].client_id as int,
                    stops1[m].client_id as int,
                    stops1[m - 1].leave_time as int,
                );
                assert(client_ok(
                    self.clients@[stops1[m].client_id as int],
                    stops1[m].client_id as int,
                ));
            }
        }
        self.lemma_costed_ok(RouteModel { clients: stops1, ..r1 });
        // the second route
        let pred = |id: usize| !r2.ids().subrange(j, j + len).contains(id);
        let kept = Self::kept_ids(r2, j, len, r2.clients.len() as int);
        assert(r2.ids().take(r2.clients.len() as int) =~= r2.ids());
        r2.ids().lemma_filter_len(pred);
        assert forall|m: int| 0 <= m < kept.len() implies (#[trigger] kept[m]) < self.clients.len() by {
            assert(kept.contains(kept[m]));
            r2.ids().lemma_filter_contains_rev(pred, kept[m]);
            let x = choose|x: int| 0 <= x < r2.ids().len() && r2.ids()[x] == kept[m];
            assert(r2.clients[x].client_id < self.clients.len());
        }
        assert(2 * LIMIT * kept.len() <= 2 * LIMIT * MAX_STOPS) by (nonlinear_arith)
            requires
                kept.len() <= MAX_STOPS,
        ;
        assert(r2.clients[0].client_id < self.clients.len());
        assert(r2.clients[0].leave_time <= HORIZON);
        self.lemma_extended_chain(
            Seq::empty(),
            r2.clients[0].client_id as int,
            r2.clients[0].leave_time,
            kept,
            kept.len(),
        );
        assert forall|m: int| 1 <= m < stops2.len() implies #[trigger] self.timed_at(
            stops2,
            m,
            0,
            0,
        ) by {
            assert(self.timed_at(
                stops2,
                m,
                r2.clients[0].client_id as int,
                r2.clients[0].leave_time,
            ));
        }
        self.lemma_costed_ok(RouteModel { clients: stops2, ..r2 });
    }

    /// The two routes that an insertion answers can be handled and are
    /// framed by the depot, each for the vehicle of the route it comes
    /// from.
    pub proof fn lemma_insertion_framed(
        &self,
        r1: RouteModel,
        r2: RouteModel,
        len: int,
        i: int,
        j: int,
    )
        requires
            self.wf(),
            self.route_ok(r1),
            self.route_ok(r2),
            self.framed(r1.clients),
            self.framed(r2.clients),
            0 <= len,
            0 <= i < r1.clients.len(),
            0 <= j < r2.clients.len(),
            self.insertion_step(r1, r2, len, i, j) is Some,
        ensures
            self.insertion_step(r1, r2, len, i, j) == self.inserted(r1, r2, i, j, len),
            self.route_ok(self.insertion_step(r1, r2, len, i, j).unwrap().0),
            self.route_ok(self.insertion_step(r1, r2, len, i, j).unwrap().1),
            self.framed(self.insertion_step(r1, r2, len, i, j).unwrap().0.clients),
            self.framed(self.insertion_step(r1, r2, len, i, j).unwrap().1.clients),
            self.insertion_step(r1, r2, len, i, j).unwrap().0.vehicle_id == r1.vehicle_id,
            self.insertion_step(r1, r2, len, i, j).unwrap().1.vehicle_id == r2.vehicle_id,
    {
        self.lemma_inserted_stops(r1, r2, i, j, len);
        let stops1 = self.grown(r1, r2, i, j, len);
        let stops2 = self.shrunk(r2, j, len);
        let ids = Self::grown_ids(r1, r2, i, j, len);
        let moved = r2.ids().subrange(j, j + len);
        assert(stops1[0] == r1.clients[0]);
        assert forall|k: int| 0 < k < stops1.len() - 1 implies (#[trigger] stops1[k]).client_id
            != self.source by {
            if k <= i {
                assert(stops1[k] == r1.clients[k]);
            } else if k - i - 1 < len {
                assert(ids[k - i - 1] == r2.clients[j + k - i - 1].client_id);
            } else {
                assert(ids[k - i - 1] == r1.clients[i + 1 + (k - i - 1 - len)].client_id);
            }
        }
        assert(stops1.last().client_id == ids[stops1.len() - 1 - i - 1]);
        assert(ids[stops1.len() - 1 - i - 1] == r1.clients[r1.clients.len() - 1].client_id);
        // the depot is not moved
        assert(!moved.contains(self.source)) by {
            if moved.contains(self.source) {
                let x = choose|x: int| 0 <= x < moved.len() && moved[x] == self.source;
                assert(moved[x] == r2.clients[j + x].client_id);
            }
        }
        assert(r2.ids().take(r2.clients.len() as int) =~= r2.ids());
        lemma_kept_framed(r2.ids(), moved, self.source);
        let kept = Self::kept_ids(r2, j, len, r2.clients.len() as int);
        assert forall|k: int| 0 < k < stops2.len() - 1 implies (#[trigger] stops2[k]).client_id
            != self.source by {
            assert(stops2[k].client_id == kept[k]);
        }
        assert(stops2[0].client_id == kept[0]);
        assert(stops2.last().client_id == kept[stops2.len() - 1]);
    }
}

/// The solution after two new routes have taken the places of those of
/// their vehicles: the routes that cost nothing are dropped, and value and
/// distance are those of the routes that stay.
pub open spec fn rebuilt(sol: SolutionModel, pair: (RouteModel, RouteModel)) -> SolutionModel {
    let routes = costly(swapped(sol.routes, pair.0, pair.1));
    SolutionModel {
        routes,
        value: total_cost(routes, routes.len()) as Cost,
        distance: total_time(routes, routes.len()) as Time,
        ..sol
    }
}

impl ProblemInstance {
    /// `new` comes from `sol` by the exchange at the stops `(i, j)` of the
    /// routes `a` and `b`, which are routes of two vehicles.
    pub open spec fn exchange_from(
        &self,
        sol: SolutionModel,
        new: SolutionModel,
        a: int,
        b: int,
        i: int,
        j: int,
    ) -> bool {
        &&& 0 <= a < sol.routes.len()
        &&& 0 <= b < sol.routes.len()
        &&& sol.routes[a].vehicle_id != sol.routes[b].vehicle_id
        &&& 0 <= i < sol.routes[a].clients.len()
        &&& 0 <= j < sol.routes[b].clients.len()
        &&& self.opt2_step(sol.routes[a], sol.routes[b], i, j) is Some
        &&& new == rebuilt(sol, self.opt2_step(sol.routes[a], sol.routes[b], i, j).unwrap())
    }

    /// `new` comes from `sol` by the insertion of `len` clients at the
    /// stops `(i, j)` of the routes `a` and `b`, which are routes of two
    /// vehicles.
    pub open spec fn insertion_from(
        &self,
        sol: SolutionModel,
        new: SolutionModel,
        len: int,
        a: int,
        b: int,
        i: int,
        j: int,
    ) -> bool {
        &&& 0 <= a < sol.routes.len()
        &&& 0 <= b < sol.routes.len()
        &&& sol.routes[a].vehicle_id != sol.routes[b].vehicle_id
        &&& 0 <= i < sol.routes[a].clients.len()
        &&& 0 <= j < sol.routes[b].clients.len()
        &&& self.insertion_step(sol.routes[a], sol.routes[b], len, i, j) is Some
        &&& new == rebuilt(
            sol,
            self.insertion_step(sol.routes[a], sol.routes[b], len, i, j).unwrap(),
        )
    }
}

impl ProblemInstance {
    /// No exchange between the two routes is feasible and lowers their
    /// cost.
    pub open spec fn no_exchange(&self, r1: RouteModel, r2: RouteModel) -> bool {
        forall|i: int, j: int|
            0 <= i < r1.clients.len() && 0 <= j < r2.clients.len() ==> (#[trigger] self.opt2_step(
                r1,
                r2,
                i,
                j,
            )) is None
    }

    /// No insertion of `len` clients of the second route into the first can
    /// be made and lowers their cost.
    pub open spec fn no_insertion(&self, r1: RouteModel, r2: RouteModel, len: int) -> bool {
        forall|i: int, j: int|
            0 <= i < r1.clients.len() && 0 <= j < r2.clients.len() ==> (
            #[trigger] self.insertion_step(r1, r2, len, i, j)) is None
    }

    /// `new` comes from `sol` by an exchange between the routes `a` and
    /// `b`.
    pub open spec fn exchange_between(&self, sol: SolutionModel, new: SolutionModel, a: int, b: int) -> bool {
        exists|i: int, j: int| #[trigger] self.exchange_from(sol, new, a, b, i, j)
    }

    /// `new` comes from `sol` by an insertion of `len` clients of route `b`
    /// into route `a`.
    pub open spec fn insertion_between(
        &self,
        sol: SolutionModel,
        new: SolutionModel,
        len: int,
        a: int,
        b: int,
    ) -> bool {
        exists|i: int, j: int| #[trigger] self.insertion_from(sol, new, len, a, b, i, j)
    }

    /// `new` comes from `sol` by an exchange of tails between two of its
    /// routes.
    pub open spec fn exchanged(&self, sol: SolutionModel, new: SolutionModel) -> bool {
        exists|a: int, b: int| #[trigger] self.exchange_between(sol, new, a, b)
    }

    /// `new` comes from `sol` by an insertion of `len` clients of one of
    /// its routes into another.
    pub open spec fn inserted_into(&self, sol: SolutionModel, new: SolutionModel, len: int) -> bool {
        exists|a: int, b: int| #[trigger] self.insertion_between(sol, new, len, a, b)
    }

    /// No two routes of the solution, of two vehicles, admit an exchange.
    pub open spec fn no_exchange_at_all(&self, sol: SolutionModel) -> bool {
        forall|a: int, b: int|
            0 <= a < sol.routes.len() && 0 <= b < sol.routes.len() && sol.routes[a].vehicle_id
                != sol.routes[b].vehicle_id ==> #[trigger] self.no_exchange(
                sol.routes[a],
                sol.routes[b],
            )
    }

    /// No two routes of the solution, of two vehicles, admit an insertion
    /// of `len` clients.
    pub open spec fn no_insertion_at_all(&self, sol: SolutionModel, len: int) -> bool {
        forall|a: int, b: int|
            0 <= a < sol.routes.len() && 0 <= b < sol.routes.len() && sol.routes[a].vehicle_id
                != sol.routes[b].vehicle_id ==> #[trigger] self.no_insertion(
                sol.routes[a],
                sol.routes[b],
                len,
            )
    }
}

impl Solution {
    /// The solution can be searched: see `ProblemInstance::solution_ok`.
    pub open spec fn wf(&self, problem: &ProblemInstance) -> bool {
        problem.solution_ok(self@)
    }

    /// Whether the solution can be searched.
    pub fn is_valid(&self, problem: &ProblemInstance) -> (r: bool)
        ensures
            r == self.wf(problem),
    {
        if self.routes.len() > MAX_ROUTES {
            return false;
        }
        let mut k: usize = 0;
        while k < self.routes.len()
            invariant
                k <= self.routes.len(),
                forall|m: int|
                    0 <= m < k ==> problem.route_ok(#[trigger] self@.routes[m]) && problem.framed(
                        self@.routes[m].clients,
                    ),
            decreases self.routes.len() - k,
        {
            let route = &self.routes[k];
            assert(self@.routes[k as int] == route@);
            if !route.is_valid(problem) || !is_framed(route, problem) {
                return false;
            }
            k += 1;
        }
        true
    }
}

/// Whether the route starts and ends at the depot and visits no depot in
/// between.
pub fn is_framed(route: &RouteEntry, problem: &ProblemInstance) -> (r: bool)
    ensures
        r == problem.framed(route.clients@),
{
    let n = route.clients.len();
    if n < 2 || route.clients[0].client_id != problem.source || route.clients[n - 1].client_id
        != problem.source {
        return false;
    }
    let mut k: usize = 1;
    while k < n - 1
        invariant
            n == route.clients.len(),
            1 <= k <= n - 1,
            forall|m: int| 0 < m < k ==> (#[trigger] route.clients@[m]).client_id != problem.source,
        decreases n - k,
    {
        if route.clients[k].client_id == problem.source {
            return false;
        }
        k += 1;
    }
    true
}

} // verus!
