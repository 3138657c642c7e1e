use vstd::prelude::*;
use super::local_search::{
    before, fails_at, no_better_at, picked, yields_at, LocalSearch, LocalSearchNotFound,
};
use super::schedule::{LATEST_ARRIVAL, TIME_CAP, VARIABLE_CAP};
use crate::types::others::{
    Cost, RouteEntry, RouteEntryClient, RouteModel, Time, HORIZON, LIMIT, MAX_STOPS,
};
use crate::types::problem_instance::{client_ok, row_ok, ProblemInstance};
use crate::utils::time_max;

verus! {

/// What a move on a pair of routes answers for a pair of positions: the two
/// new routes, or nothing.
pub type PairStep = spec_fn(int, int) -> Option<(RouteModel, RouteModel)>;

/// The total cost of two routes.
pub open spec fn pair_cost(pair: (RouteModel, RouteModel)) -> int {
    pair.0.route_cost() + pair.1.route_cost()
}

/// `new` is what the move answers for the positions `(i, j)`, and a search
/// over `len1` times `len2` positions was right to pick it: with
/// `first_improvement`, the move has no answer for any position tried
/// before; without, no answer costs less, and none for a position tried
/// before costs the same.
pub open spec fn chosen(
    step: PairStep,
    len1: int,
    len2: int,
    first_improvement: bool,
    new: (RouteModel, RouteModel),
    i: int,
    j: int,
) -> bool {
    &&& 0 <= i < len1
    &&& 0 <= j < len2
    &&& step(i, j) == Some(new)
    &&& first_improvement ==> forall|a: int, b: int|
        0 <= a < len1 && 0 <= b < len2 && before(a, b, i, j) ==> (#[trigger] step(a, b)) is None
    &&& !first_improvement ==> forall|a: int, b: int|
        0 <= a < len1 && 0 <= b < len2 && (#[trigger] step(a, b)) is Some ==> pair_cost(new)
            <= pair_cost(step(a, b).unwrap()) && (before(a, b, i, j) ==> pair_cost(new) < pair_cost(
            step(a, b).unwrap(),
        ))
}

impl ProblemInstance {
    /// The time at which stop `k` is left by a vehicle that reaches stop
    /// `start` at `arrival`, is served there at once, and goes on along the
    /// stops.
    pub open spec fn departure(
        &self,
        clients: Seq<RouteEntryClient>,
        start: int,
        arrival: int,
        k: int,
    ) -> int
        decreases k - start,
    {
        if k <= start {
            arrival + self.clients@[clients[start].client_id as int].service_time
        } else {
            let c = self.clients@[clients[k].client_id as int];
            let reach = self.departure(clients, start, arrival, k - 1) + self.dist(
                clients[k - 1].client_id as int,
                clients[k].client_id as int,
            );
            (if reach > c.earliest {
                reach
            } else {
                c.earliest as int
            }) + c.service_time
        }
    }

    /// The stops from `start` on can be served by a vehicle of the given
    /// capacity that already carries `carried` and reaches stop `start` at
    /// `arrival`: their demand fits, and every stop after `start` is
    /// reached in time.
    pub open spec fn subroute_feasible(
        &self,
        clients: Seq<RouteEntryClient>,
        start: int,
        arrival: int,
        carried: int,
        capacity: int,
    ) -> bool {
        &&& self.load(clients, clients.len()) - self.load(clients, start as nat) + carried
            <= capacity
        &&& forall|k: int|
            start < k < clients.len() ==> #[trigger] self.feasible(
                clients[k - 1].client_id as int,
                clients[k].client_id as int,
                self.departure(clients, start, arrival, k - 1),
            )
    }

    /// The route that keeps its first `route_index` stops and goes on with
    /// the stops of `source` from `source_index` on, each timed from the
    /// stop before it (from the depot at its opening, if none is kept), with
    /// time, costs and load derived anew.
    pub open spec fn spliced(
        &self,
        route: RouteModel,
        source: RouteModel,
        route_index: int,
        source_index: int,
    ) -> RouteModel {
        self.costed(
            RouteModel {
                clients: self.extended(
                    route.clients.take(route_index),
                    self.source as int,
                    self.clients@[self.source as int].earliest,
                    source.ids().skip(source_index),
                    (source.clients.len() - source_index) as nat,
                ),
                ..route
            },
        )
    }

    /// The two routes can exchange what follows position `i` of the first
    /// and position `j` of the second: neither route gets too long, each of
    /// the two stops reaches the stop after the other in time, and each
    /// route can serve the other's tail, reached from its own stop, with
    /// what it carries up to that stop.
    pub open spec fn opt2_feasible(&self, r1: RouteModel, r2: RouteModel, i: int, j: int) -> bool {
        let c1 = r1.clients[i];
        let c2 = r2.clients[j];
        let next1 = r1.clients[i + 1];
        let next2 = r2.clients[j + 1];
        &&& i + r2.clients.len() - j <= MAX_STOPS
        &&& j + r1.clients.len() - i <= MAX_STOPS
        &&& self.feasible(c1.client_id as int, next2.client_id as int, c1.leave_time as int)
        &&& self.feasible(c2.client_id as int, next1.client_id as int, c2.leave_time as int)
        &&& self.subroute_feasible(
            r1.clients,
            i + 1,
            self.dist(c2.client_id as int, next1.client_id as int) + c2.leave_time,
            self.load(r2.clients, (j + 1) as nat),
            self.vehicles@[r2.vehicle_id as int].capacity as int,
        )
        &&& self.subroute_feasible(
            r2.clients,
            j + 1,
            self.dist(c1.client_id as int, next2.client_id as int) + c1.leave_time,
            self.load(r1.clients, (i + 1) as nat),
            self.vehicles@[r1.vehicle_id as int].capacity as int,
        )
    }

    /// What the exchange answers for the positions `(i, j)`: nothing if one
    /// of the two stops is the depot, if the exchange is not feasible, or if
    /// the two new routes together do not cost less than the two old ones;
    /// else the two new routes.
    pub open spec fn opt2_step(&self, r1: RouteModel, r2: RouteModel, i: int, j: int) -> Option<
        (RouteModel, RouteModel),
    > {
        if r1.clients[i].client_id == self.source || r2.clients[j].client_id == self.source {
            None
        } else if !self.opt2_feasible(r1, r2, i, j) {
            None
        } else {
            let new = (self.spliced(r1, r2, i + 1, j + 1), self.spliced(r2, r1, j + 1, i + 1));
            if pair_cost(new) < pair_cost((r1, r2)) {
                Some(new)
            } else {
                None
            }
        }
    }

    /// What the exchange answers, for every pair of positions.
    pub open spec fn opt2_steps(&self, r1: RouteModel, r2: RouteModel) -> PairStep {
        |a: int, b: int| self.opt2_step(r1, r2, a, b)
    }

    /// The load of a prefix is at most that of a longer prefix.
    pub proof fn lemma_load_grows(&self, clients: Seq<RouteEntryClient>, k: nat, m: nat)
        requires
            k <= m,
        ensures
            0 <= self.load(clients, k) <= self.load(clients, m),
        decreases m,
    {
        if k == 0 && m == 0 {
        } else if k < m {
            self.lemma_load_grows(clients, k, (m - 1) as nat);
        } else {
            self.lemma_load_grows(clients, (k - 1) as nat, (m - 1) as nat);
        }
    }

    /// A route spliced from two routes that can be handled can be handled
    /// too, if it is not too long and its first new stop is reached in
    /// time.
    pub proof fn lemma_spliced_ok(
        &self,
        route: RouteModel,
        source: RouteModel,
        route_index: int,
        source_index: int,
    )
        requires
            self.wf(),
            self.route_ok(route),
            self.route_ok(source),
            1 <= route_index <= route.clients.len(),
            0 <= source_index < source.clients.len(),
            route_index + source.clients.len() - source_index <= MAX_STOPS,
            self.feasible(
                route.clients[route_index - 1].client_id as int,
                source.clients[source_index].client_id as int,
                route.clients[route_index - 1].leave_time as int,
            ),
        ensures
            self.route_ok(self.spliced(route, source, route_index, source_index)),
            self.spliced(route, source, route_index, source_index).vehicle_id == route.vehicle_id,
            self.spliced(route, source, route_index, source_index).clients.len() == route_index
                + source.clients.len() - source_index,
    {
        let base = route.clients.take(route_index);
        let ids = source.ids().skip(source_index);
        let k = (source.clients.len() - source_index) as nat;
        let t = self.clients@[self.source as int].earliest;
        let e = self.extended(base, self.source as int, t, ids, k);
        assert(LIMIT == 0x4000_0000 && HORIZON == 0x1000_0000_0000_0000 && MAX_STOPS == 0x1_0000
            && LATEST_ARRIVAL == 0x8_0000_0000_0000);
        assert(2 * LIMIT * k <= 2 * LIMIT * MAX_STOPS) by (nonlinear_arith)
            requires
                k <= MAX_STOPS,
        ;
        assert(base.last() == route.clients[route_index - 1]);
        self.lemma_extended(base, self.source as int, t, ids, k);
        // the first new stop is reached in time, so that it is left early
        let first = e[route_index];
        let c1 = route.clients[route_index - 1];
        let id = source.clients[source_index].client_id;
        assert(ids[0] == id);
        assert(e.take(route_index) =~= base) by {
            assert(e.take(base.len() as int) == base);
        }
        assert(first == self.next_stop(base, self.source as int, t, id));
        self.lemma_feasible_bound(c1.client_id as int, id as int, c1.leave_time as int);
        assert(client_ok(self.clients@[id as int], id as int));
        assert(first.leave_time <= LATEST_ARRIVAL + LIMIT);
        // every later stop is timed from the first new one
        assert forall|m: int| 0 <= m < e.len() implies (#[trigger] e[m]).leave_time <= HORIZON by {
            if m < route_index {
                assert(e[m] == e.take(base.len() as int)[m]);
                assert(e[m] == route.clients[m]);
            } else {
                self.lemma_chain_bound(e, route_index, m);
                assert(2 * LIMIT * (m - route_index) <= 2 * LIMIT * MAX_STOPS) by (nonlinear_arith)
                    requires
                        m - route_index <= MAX_STOPS,
                ;
            }
        }
        self.lemma_costed_ok(RouteModel { clients: e, ..route });
    }

    /// Along stops that are each timed from the stop before, a stop is left
    /// at most two limits per stop later than an earlier one.
    pub proof fn lemma_chain_bound(&self, e: Seq<RouteEntryClient>, from: int, m: int)
        requires
            self.wf(),
            self.stops_known(e),
            0 <= from <= m < e.len(),
            e[from].leave_time + 2 * LIMIT * (m - from) <= u64::MAX,
            forall|x: int|
                from < x <= m ==> #[trigger] e[x] == self.next_stop(
                    e.take(x),
                    self.source as int,
                    self.clients@[self.source as int].earliest,
                    e[x].client_id,
                ),
        ensures
            e[m].leave_time <= e[from].leave_time + 2 * LIMIT * (m - from),
        decreases m - from,
    {
        if m > from {
            assert(2 * LIMIT * (m - 1 - from) + 2 * LIMIT == 2 * LIMIT * (m - from))
                by (nonlinear_arith);
            assert(0 <= 2 * LIMIT * (m - 1 - from)) by (nonlinear_arith)
                requires
                    m - 1 - from >= 0,
            ;
            self.lemma_chain_bound(e, from, m - 1);
            let prev = e[m - 1];
            assert(e.take(m).last() == prev);
            self.lemma_stop_bounds(prev.client_id as int, e[m].client_id as int, prev.leave_time);
        }
    }
}

/// Whether the stops of the route from `client_index` on can be served by a
/// vehicle of the given capacity that already carries `carried_demand` and
/// reaches the stop at `client_index` at `new_arrival_time`.
fn is_subroute_feasible(
    problem: &ProblemInstance,
    route: &RouteEntry,
    client_index: usize,
    new_arrival_time: Time,
    carried_demand: u64,
    capacity: u64,
) -> (r: bool)
    requires
        problem.wf(),
        route.wf(problem),
        client_index < route.clients.len(),
        new_arrival_time <= HORIZON + LIMIT,
        carried_demand <= TIME_CAP,
    ensures
        r == problem.subroute_feasible(
            route.clients@,
            client_index as int,
            new_arrival_time as int,
            carried_demand as int,
            capacity as int,
        ),
{
    let ghost stops = route.clients@;
    let n = route.clients.len();
    proof {
        assert(LIMIT == 0x4000_0000 && HORIZON == 0x1000_0000_0000_0000 && MAX_STOPS == 0x1_0000
            && LATEST_ARRIVAL == 0x8_0000_0000_0000 && TIME_CAP == 0x4000_0000_0000);
    }
    let mut subroute_demand: u64 = 0;
    let mut k: usize = client_index;
    while k < n
        invariant
            problem.wf(),
            problem.stops_known(stops),
            stops == route.clients@,
            n == stops.len(),
            n <= MAX_STOPS,
            client_index <= k <= n,
            subroute_demand == problem.load(stops, k as nat) - problem.load(
                stops,
                client_index as nat,
            ),
        decreases n - k,
    {
        proof {
            problem.lemma_totals_bounded(stops, (k + 1) as nat);
            problem.lemma_load_grows(stops, client_index as nat, k as nat);
            assert(stops[k as int].client_id < problem.clients.len());
            assert((k + 1) * LIMIT <= MAX_STOPS * LIMIT) by (nonlinear_arith)
                requires
                    k + 1 <= MAX_STOPS,
            ;
        }
        subroute_demand = subroute_demand + problem.clients[route.clients[k].client_id].demand;
        k += 1;
    }
    proof {
        problem.lemma_totals_bounded(stops, n as nat);
        problem.lemma_load_grows(stops, client_index as nat, n as nat);
        assert(n * LIMIT <= MAX_STOPS * LIMIT) by (nonlinear_arith)
            requires
                n <= MAX_STOPS,
        ;
    }
    if subroute_demand + carried_demand > capacity {
        return false;
    }
    assert(stops[client_index as int].client_id < problem.clients.len());
    let mut prev_client_id = route.clients[client_index].client_id;
    assert(client_ok(problem.clients@[prev_client_id as int], prev_client_id as int));
    let mut current_time = new_arrival_time + problem.clients[prev_client_id].service_time;

    let mut k: usize = client_index + 1;
    while k < n
        invariant
            problem.wf(),
            problem.stops_known(stops),
            stops == route.clients@,
            n == stops.len(),
            client_index < k <= n,
            prev_client_id == stops[k - 1].client_id,
            current_time == problem.departure(
                stops,
                client_index as int,
                new_arrival_time as int,
                k - 1,
            ),
            current_time <= HORIZON + 2 * LIMIT,
            forall|m: int|
                client_index < m < k ==> #[trigger] problem.feasible(
                    stops[m - 1].client_id as int,
                    stops[m].client_id as int,
                    problem.departure(stops, client_index as int, new_arrival_time as int, m - 1),
                ),
        decreases n - k,
    {
        let client_id = route.clients[k].client_id;
        assert(stops[k as int].client_id < problem.clients.len());
        assert(stops[k - 1].client_id < problem.clients.len());
        let client = &problem.clients[client_id];

        if !problem.is_move_feasible(prev_client_id, client_id, current_time) {
            return false;
        }
        proof {
            problem.lemma_feasible_bound(
                prev_client_id as int,
                client_id as int,
                current_time as int,
            );
            assert(row_ok(problem.distances@[prev_client_id as int]@, problem.clients.len() as int));
            assert(client_ok(problem.clients@[client_id as int], client_id as int));
        }
        let arc_time = problem.distances[prev_client_id][client_id];
        current_time = time_max(current_time + arc_time, client.earliest) + client.service_time;
        prev_client_id = client_id;
        k += 1;
    }

    true
}

/// Cuts the route after its first `route_index` stops and lets it go on
/// with the stops of `source` from `source_index` on, timed anew.
fn replace_subroute(
    problem: &ProblemInstance,
    route: &mut RouteEntry,
    source: &RouteEntry,
    route_index: usize,
    source_index: usize,
)
    requires
        problem.wf(),
        old(route).wf(problem),
        source.wf(problem),
        route_index <= old(route).clients.len(),
        source_index <= source.clients.len(),
        route_index + source.clients.len() - source_index <= MAX_STOPS,
    ensures
        final(route)@ == problem.spliced(
            old(route)@,
            source@,
            route_index as int,
            source_index as int,
        ),
{
    let ghost before = route.clients@;
    let ghost base = before.take(route_index as int);
    let ghost ids = source@.ids().skip(source_index as int);
    let ghost depot_opens = problem.clients@[problem.source as int].earliest;
    let ghost count = (source.clients.len() - source_index) as nat;
    proof {
        assert(LIMIT == 0x4000_0000 && HORIZON == 0x1000_0000_0000_0000 && MAX_STOPS == 0x1_0000);
    }

    let mut left = route.clients.len();
    while left > route_index
        invariant
            route_index <= left <= before.len(),
            route.clients@ == before.take(left as int),
            route.vehicle_id == old(route).vehicle_id,
            route.route_time == old(route).route_time,
            route.route_fixed_cost == old(route).route_fixed_cost,
            route.route_variable_cost == old(route).route_variable_cost,
            route.demand == old(route).demand,
        decreases left,
    {
        route.clients.pop();
        left -= 1;
        proof {
            assert(route.clients@ =~= before.take(left as int));
        }
    }

    let mut prev_client_id;
    let mut current_time;

    proof {
        reveal(ProblemInstance::extended);
    }
    assert(client_ok(problem.clients@[problem.source as int], problem.source as int));
    if route.clients.len() == 0 {
        prev_client_id = problem.source;
        current_time = problem.clients[prev_client_id].earliest;
    } else {
        let route_client = &route.clients[route.clients.len() - 1];
        prev_client_id = route_client.client_id;
        current_time = route_client.leave_time;
        assert(route_client == before[route_index - 1]);
    }
    proof {
        assert forall|m: int| 0 <= m < ids.len() implies (#[trigger] ids[m])
            < problem.clients.len() by {
            assert(source.clients@[source_index + m].client_id < problem.clients.len());
        }
        assert(problem.stops_known(base));
        assert(2 * LIMIT * count <= 2 * LIMIT * MAX_STOPS) by (nonlinear_arith)
            requires
                count <= MAX_STOPS,
        ;
        assert(base.len() > 0 ==> base.last().leave_time <= HORIZON);
    }

    let mut k: usize = source_index;
    while k < source.clients.len()
        invariant
            problem.wf(),
            source.wf(problem),
            source_index <= k <= source.clients.len(),
            count == source.clients.len() - source_index,
            ids == source@.ids().skip(source_index as int),
            depot_opens == problem.clients@[problem.source as int].earliest,
            problem.stops_known(base),
            base.len() == route_index,
            route_index + count <= MAX_STOPS,
            forall|m: int| 0 <= m < ids.len() ==> (#[trigger] ids[m]) < problem.clients.len(),
            ProblemInstance::start_time(base, depot_opens) + 2 * LIMIT * count <= u64::MAX,
            route.clients@ == problem.extended(
                base,
                problem.source as int,
                depot_opens,
                ids,
                (k - source_index) as nat,
            ),
            prev_client_id < problem.clients.len(),
            route.clients.len() == 0 ==> prev_client_id == problem.source && current_time
                == depot_opens,
            route.clients.len() > 0 ==> prev_client_id == route.clients@.last().client_id
                && current_time == route.clients@.last().leave_time,
            route.vehicle_id == old(route).vehicle_id,
            route.route_time == old(route).route_time,
            route.route_fixed_cost == old(route).route_fixed_cost,
            route.route_variable_cost == old(route).route_variable_cost,
            route.demand == old(route).demand,
        decreases source.clients.len() - k,
    {
        let client_id = source.clients[k].client_id;
        proof {
            assert(ids[k - source_index] == client_id);
            let done = (k - source_index) as nat;
            assert(2 * LIMIT * done + 2 * LIMIT <= 2 * LIMIT * count) by (nonlinear_arith)
                requires
                    done + 1 <= count,
            ;
            assert(0 <= 2 * LIMIT * done) by (nonlinear_arith)
                requires
                    done >= 0,
            ;
            problem.lemma_extended(base, problem.source as int, depot_opens, ids, done);
            if route.clients.len() > 0 {
                if done > 0 {
                    assert(route.clients@.last() == route.clients@[base.len() + done - 1]);
                    assert(2 * LIMIT * ((base.len() + done - 1) - base.len() + 1) == 2 * LIMIT
                        * done) by (nonlinear_arith);
                } else {
                    assert(route.clients@ == base);
                }
            }
            problem.lemma_stop_bounds(prev_client_id as int, client_id as int, current_time);
            assert(row_ok(problem.distances@[prev_client_id as int]@, problem.clients.len() as int));
        }
        let arc_time = problem.distances[prev_client_id][client_id];

        let new_route_client = problem.create_route_entry_client(arc_time, client_id, current_time);
        current_time = new_route_client.leave_time;
        prev_client_id = client_id;
        route.clients.push(new_route_client);
        k += 1;
        proof {
            reveal(ProblemInstance::extended);
        }
    }
    proof {
        problem.lemma_extended(base, problem.source as int, depot_opens, ids, count);
    }
    problem.compute_route_costs(route);
}

/// The two routes with what follows their first `client1_index` and
/// `client2_index` stops exchanged.
fn exchange_subroutes(
    problem: &ProblemInstance,
    route1: &RouteEntry,
    route2: &RouteEntry,
    client1_index: usize,
    client2_index: usize,
) -> (r: (RouteEntry, RouteEntry))
    requires
        problem.wf(),
        route1.wf(problem),
        route2.wf(problem),
        client1_index <= route1.clients.len(),
        client2_index <= route2.clients.len(),
        client1_index + route2.clients.len() - client2_index <= MAX_STOPS,
        client2_index + route1.clients.len() - client1_index <= MAX_STOPS,
    ensures
        r.0@ == problem.spliced(route1@, route2@, client1_index as int, client2_index as int),
        r.1@ == problem.spliced(route2@, route1@, client2_index as int, client1_index as int),
{
    let mut new_route1 = route1.clone();
    let mut new_route2 = route2.clone();

    replace_subroute(problem, &mut new_route1, route2, client1_index, client2_index);
    replace_subroute(problem, &mut new_route2, route1, client2_index, client1_index);

    (new_route1, new_route2)
}

/// The total demand of the stops of the route up to `index`.
fn get_subroute_demand(problem: &ProblemInstance, route: &RouteEntry, index: usize) -> (r: u64)
    requires
        problem.wf(),
        route.wf(problem),
        index < route.clients.len(),
    ensures
        r == problem.load(route.clients@, (index + 1) as nat),
        r <= TIME_CAP,
{
    let ghost stops = route.clients@;
    let mut total: u64 = 0;
    let mut k: usize = 0;
    proof {
        assert(LIMIT == 0x4000_0000 && MAX_STOPS == 0x1_0000 && TIME_CAP == 0x4000_0000_0000);
    }
    while k <= index
        invariant
            problem.wf(),
            problem.stops_known(stops),
            stops == route.clients@,
            index < stops.len() <= MAX_STOPS,
            k <= index + 1,
            total == problem.load(stops, k as nat),
        decreases index + 1 - k,
    {
        proof {
            problem.lemma_totals_bounded(stops, (k + 1) as nat);
            assert(stops[k as int].client_id < problem.clients.len());
            assert((k + 1) * LIMIT <= MAX_STOPS * LIMIT) by (nonlinear_arith)
                requires
                    k + 1 <= MAX_STOPS,
            ;
        }
        total = total + problem.clients[route.clients[k].client_id].demand;
        k += 1;
    }
    proof {
        problem.lemma_totals_bounded(stops, (index + 1) as nat);
        assert((index + 1) * LIMIT <= MAX_STOPS * LIMIT) by (nonlinear_arith)
            requires
                index + 1 <= MAX_STOPS,
        ;
    }
    total
}

/// Exchanges the tails of two routes: for every stop of the first route
/// and every stop of the second, neither of them the depot, it tries to
/// let each route go on with what follows the stop of the other. Returns
/// the two new routes of the first exchange that is feasible and lowers
/// the cost of the two routes, with `first_improvement`, or of the first
/// among those that lower it most; nothing if there is none.
pub fn opt2_search(
    problem: &ProblemInstance,
    route1: &RouteEntry,
    route2: &RouteEntry,
    first_improvement: bool,
) -> (r: Option<(RouteEntry, RouteEntry)>)
    requires
        problem.wf(),
        route1.wf(problem),
        route2.wf(problem),
        problem.ends_at_depot(route1.clients@),
        problem.ends_at_depot(route2.clients@),
    ensures
        match r {
            None => forall|i: int, j: int|
                0 <= i < route1.clients.len() && 0 <= j < route2.clients.len() ==> (
                #[trigger] problem.opt2_step(route1@, route2@, i, j)) is None,
            Some(new) => new.0.wf(problem) && new.1.wf(problem) && exists|i: int, j: int| #[trigger]
                chosen(
                    problem.opt2_steps(route1@, route2@),
                    route1.clients.len() as int,
                    route2.clients.len() as int,
                    first_improvement,
                    (new.0@, new.1@),
                    i,
                    j,
                ),
        },
{
    let ls = LocalSearch::new(first_improvement);
    let ghost step: PairStep = problem.opt2_steps(route1@, route2@);

    let search = |index1: usize, c1: &RouteEntryClient, index2: usize, c2: &RouteEntryClient| -> (out:
        Result<((RouteEntry, RouteEntry), Cost), LocalSearchNotFound>)
        requires
            index1 < route1.clients.len(),
            index2 < route2.clients.len(),
            *c1 == route1.clients[index1 as int],
            *c2 == route2.clients[index2 as int],
        ensures
            (match out {
                Ok((new, value)) => step(index1 as int, index2 as int) == Some((new.0@, new.1@))
                    && value == pair_cost((new.0@, new.1@)) && new.0.wf(problem) && new.1.wf(
                    problem,
                ),
                Err(_) => step(index1 as int, index2 as int) is None,
            }),
        {
            if c1.client_id == problem.source || c2.client_id == problem.source {
                return Err(LocalSearchNotFound);
            }
            proof {
                assert(LIMIT == 0x4000_0000 && HORIZON == 0x1000_0000_0000_0000 && MAX_STOPS
                    == 0x1_0000 && VARIABLE_CAP == 0x1000_0000_0000_0000_0000);
                assert(route1.clients@[index1 as int].client_id < problem.clients.len());
                assert(route2.clients@[index2 as int].client_id < problem.clients.len());
                assert(route1.clients@[index1 + 1].client_id < problem.clients.len());
                assert(route2.clients@[index2 + 1].client_id < problem.clients.len());
                assert(row_ok(
                    problem.distances@[c1.client_id as int]@,
                    problem.clients.len() as int,
                ));
                assert(row_ok(
                    problem.distances@[c2.client_id as int]@,
                    problem.clients.len() as int,
                ));
                assert(route1.clients@[index1 as int].leave_time <= HORIZON);
                assert(route2.clients@[index2 as int].leave_time <= HORIZON);
            }
            let next_c1 = &route1.clients[index1 + 1];
            let next_c2 = &route2.clients[index2 + 1];

            let arrival_new_next_c2 = problem.distances[c2.client_id][next_c1.client_id]
                + c2.leave_time;
            let arrival_new_next_c1 = problem.distances[c1.client_id][next_c2.client_id]
                + c1.leave_time;

            let prev_subroute1_demand = get_subroute_demand(problem, route1, index1);
            let prev_subroute2_demand = get_subroute_demand(problem, route2, index2);

            let exchange_feasible = index1 + (route2.clients.len() - index2) <= MAX_STOPS && index2
                + (route1.clients.len() - index1) <= MAX_STOPS && problem.is_move_feasible(
                c1.client_id,
                next_c2.client_id,
                c1.leave_time,
            ) && problem.is_move_feasible(c2.client_id, next_c1.client_id, c2.leave_time)
                && is_subroute_feasible(
                problem,
                route1,
                index1 + 1,
                arrival_new_next_c2,
                prev_subroute2_demand,
                problem.vehicles[route2.vehicle_id].capacity,
            ) && is_subroute_feasible(
                problem,
                route2,
                index2 + 1,
                arrival_new_next_c1,
                prev_subroute1_demand,
                problem.vehicles[route1.vehicle_id].capacity,
            );
            assert(exchange_feasible == problem.opt2_feasible(
                route1@,
                route2@,
                index1 as int,
                index2 as int,
            ));

            if !exchange_feasible {
                return Err(LocalSearchNotFound);
            }
            let (new_route1, new_route2) = exchange_subroutes(
                problem,
                route1,
                route2,
                index1 + 1,
                index2 + 1,
            );
            proof {
                problem.lemma_spliced_ok(route1@, route2@, index1 + 1, index2 + 1);
                problem.lemma_spliced_ok(route2@, route1@, index2 + 1, index1 + 1);
            }
            let value = new_route1.route_cost() + new_route2.route_cost();
            let old_value = route1.route_cost() + route2.route_cost();

            if value < old_value {
                return Ok(((new_route1, new_route2), value));
            }
            Err(LocalSearchNotFound)
        };

    let found = ls.iterate(&route1.clients, &route2.clients, search);
    proof {
        let v1 = route1.clients@;
        let v2 = route2.clients@;
        if found is None {
            {
                assert forall|i: int, j: int| 0 <= i < v1.len() && 0 <= j < v2.len() implies (
                #[trigger] problem.opt2_step(route1@, route2@, i, j)) is None by {
                    assert(fails_at(search, v1, v2, i, j));
                    assert(step(i, j) is None);
                }
            }
        } else {
            {
                let new = found.unwrap();
                let (i, j, c) = choose|i: int, j: int, c: Cost| #[trigger]
                    picked(search, v1, v2, first_improvement, new, i, j, c);
                assert(yields_at(search, v1, v2, i, j, new, c));
                assert(step(i, j) == Some((new.0@, new.1@)));
                if first_improvement {
                    assert forall|a: int, b: int|
                        0 <= a < v1.len() && 0 <= b < v2.len() && before(a, b, i, j) implies (
                    #[trigger] step(a, b)) is None by {
                        assert(fails_at(search, v1, v2, a, b));
                    }
                } else {
                    assert forall|a: int, b: int|
                        0 <= a < v1.len() && 0 <= b < v2.len() && (#[trigger] step(a, b))
                            is Some implies pair_cost((new.0@, new.1@)) <= pair_cost(
                        step(a, b).unwrap(),
                    ) && (before(a, b, i, j) ==> pair_cost((new.0@, new.1@)) < pair_cost(
                        step(a, b).unwrap(),
                    )) by {
                        assert(no_better_at(search, v1, v2, a, b, c, before(a, b, i, j)));
                        if fails_at(search, v1, v2, a, b) {
                            assert(step(a, b) is None);
                        } else {
                            let (s2, c2) = choose|s2: (RouteEntry, RouteEntry), c2: Cost|
                                #[trigger] yields_at(search, v1, v2, a, b, s2, c2) && c <= c2 && (
                                before(a, b, i, j) ==> c < c2);
                            assert(step(a, b) == Some((s2.0@, s2.1@)));
                        }
                    }
                }
                assert(chosen(
                    step,
                    v1.len() as int,
                    v2.len() as int,
                    first_improvement,
                    (new.0@, new.1@),
                    i,
                    j,
                ));
            }
        }
    }
    found
}

} // verus!
