use vstd::prelude::*;
use super::coverage::{count_in, lemma_count_push};
use super::grasp::Grasp;
use super::order::ordered;
use super::utils::last_within;
use super::schedule::LATEST_ARRIVAL;
use super::types::{GraspRoute, GraspRouteMove};
use crate::types::others::{
    stop_ids, Cost, RouteEntryClient, RouteModel, HORIZON, LIMIT, MAX_STOPS, SCALE,
};
use crate::types::problem_instance::{client_ok, row_ok, vehicle_ok, ProblemInstance};

verus! {

/// No move costs more than this, in thousandths of a cost unit.
pub const COST_CAP: Cost = 0x100_0000_0000_0000_0000_0000_0000;

/// The number of the first `k` routes that have left the depot.
pub open spec fn opened_count(routes: Seq<GraspRoute>, k: nat) -> nat
    decreases k,
{
    if k == 0 {
        0
    } else {
        opened_count(routes, (k - 1) as nat) + (if routes[k - 1].route.len() >= 2 {
            1nat
        } else {
            0nat
        })
    }
}

/// Where fewer routes have left the depot than there are, one is still at
/// the depot.
pub proof fn lemma_one_at_depot(routes: Seq<GraspRoute>, k: nat)
    requires
        k <= routes.len(),
        opened_count(routes, k) < k,
    ensures
        exists|v: int| 0 <= v < k && (#[trigger] routes[v]).route.len() < 2,
    decreases k,
{
    if k > 0 {
        if routes[k - 1].route.len() >= 2 {
            lemma_one_at_depot(routes, (k - 1) as nat);
            let v = choose|v: int| 0 <= v < k - 1 && (#[trigger] routes[v]).route.len() < 2;
            assert(routes[v].route.len() < 2);
        } else {
            assert(routes[k - 1].route.len() < 2);
        }
    }
}

/// Where one route changes, at most one more route has left the depot.
pub proof fn lemma_opened_update(a: Seq<GraspRoute>, b: Seq<GraspRoute>, v: int, k: nat)
    requires
        a.len() == b.len(),
        0 <= v < a.len(),
        k <= a.len(),
        forall|m: int| 0 <= m < a.len() && m != v ==> a[m] == b[m],
    ensures
        opened_count(b, k) <= opened_count(a, k) + 1,
    decreases k,
{
    if k > 0 {
        lemma_opened_update(a, b, v, (k - 1) as nat);
        if v >= k {
            lemma_opened_same(a, b, k);
        } else if v < k - 1 {
        } else {
            lemma_opened_same(a, b, (k - 1) as nat);
        }
    }
}

/// Only the first `k` routes matter to how many of them have left the
/// depot.
pub proof fn lemma_opened_same(a: Seq<GraspRoute>, b: Seq<GraspRoute>, k: nat)
    requires
        k <= a.len(),
        k <= b.len(),
        forall|m: int| 0 <= m < k ==> a[m] == b[m],
    ensures
        opened_count(a, k) == opened_count(b, k),
    decreases k,
{
    if k > 0 {
        lemma_opened_same(a, b, (k - 1) as nat);
    }
}

/// Where no route has left the depot, none is counted.
pub proof fn lemma_opened_none(routes: Seq<GraspRoute>, k: nat)
    requires
        k <= routes.len(),
        forall|v: int| 0 <= v < routes.len() ==> (#[trigger] routes[v]).route.len() == 1,
    ensures
        opened_count(routes, k) == 0,
    decreases k,
{
    if k > 0 {
        lemma_opened_none(routes, (k - 1) as nat);
    }
}

impl ProblemInstance {
    /// The stop with which every route starts: at the depot, from the
    /// depot, when the depot opens.
    pub open spec fn opening_stop(&self) -> RouteEntryClient {
        self.stop_at(
            self.dist(self.source as int, self.source as int),
            self.source as int,
            self.clients@[self.source as int].earliest,
        )
    }

    /// The route of vehicle `v` is being built: it starts at the depot and
    /// visits no depot after that, every stop is timed from the stop before
    /// it and reached in time, the vehicle stands at the last stop and
    /// leaves it when that stop ends, and travel time and capacity left are
    /// those of the stops.
    pub open spec fn building(&self, g: &GraspRoute, v: int) -> bool {
        &&& g.vehicle_id == v
        &&& 0 <= v < self.vehicles.len()
        &&& g.route.len() >= 1
        &&& self.stops_known(g.route@)
        &&& g.route@[0] == self.opening_stop()
        &&& forall|k: int| 1 <= k < g.route.len() ==> (#[trigger] g.route@[k]).client_id != self.source
        &&& forall|k: int|
            0 <= k < g.route.len() ==> (#[trigger] g.route@[k]).leave_time <= HORIZON - 2 * LIMIT
        &&& g.current_client_id == g.route@.last().client_id
        &&& g.current_time == g.route@.last().leave_time
        &&& g.route_time == self.travel_time(g.route@, g.route@.len())
        &&& g.capacity_left + self.load(g.route@, g.route@.len())
            == self.vehicles@[v].capacity
        &&& self.timed(g.route@)
        &&& self.on_time_from(g.route@, 1)
    }
}

impl ProblemInstance {
    /// `new` is the route `old` after its vehicle has moved on to client
    /// `t`.
    pub open spec fn moved_on(&self, old: &GraspRoute, new: &GraspRoute, t: int) -> bool {
        &&& new.vehicle_id == old.vehicle_id
        &&& new.current_client_id == t
        &&& self.clients@[t].demand <= old.capacity_left
        &&& new.capacity_left == old.capacity_left - self.clients@[t].demand
        &&& new.route_time == old.route_time + self.dist(old.current_client_id as int, t)
        &&& new.route@ == old.route@.push(
            self.stop_at(self.dist(old.current_client_id as int, t), t, old.current_time),
        )
        &&& new.current_time == new.route@.last().leave_time
    }

    /// What holds of a route that is being built after its vehicle has
    /// moved on, to a client or back to the depot: travel time and capacity
    /// left are those of the stops, every stop is timed from the stop
    /// before it, and the new stop is left at most two limits later than
    /// the one before.
    pub proof fn lemma_route_step(&self, old: &GraspRoute, new: &GraspRoute, v: int, t: int)
        requires
            self.wf(),
            self.building(old, v),
            0 <= t < self.clients.len(),
            self.moved_on(old, new, t),
        ensures
            new.route.len() == old.route.len() + 1,
            self.stops_known(new.route@),
            forall|k: int| 0 <= k < old.route.len() ==> new.route@[k] == old.route@[k],
            new.route@.last().client_id == t,
            old.current_time <= new.route@.last().leave_time <= old.current_time + 2 * LIMIT,
            new.route_time == self.travel_time(new.route@, new.route@.len()),
            new.capacity_left + self.load(new.route@, new.route@.len()) == self.vehicles@[v].capacity,
            self.timed(new.route@),
            forall|m: int|
                1 <= m < old.route.len() ==> #[trigger] self.feasible(
                    new.route@[m - 1].client_id as int,
                    new.route@[m].client_id as int,
                    new.route@[m - 1].leave_time as int,
                ),
    {
        let a = old.route@;
        let b = new.route@;
        let n = a.len();
        assert(LIMIT == 0x4000_0000 && HORIZON == 0x1000_0000_0000_0000);
        assert(a.last().leave_time <= HORIZON - 2 * LIMIT);
        assert(a.last().client_id < self.clients.len());
        self.lemma_stop_bounds(old.current_client_id as int, t, old.current_time);
        self.lemma_totals_agree(a, b, n);
        assert(self.arc_into(b, n as int) == self.dist(old.current_client_id as int, t));
        assert forall|k: int| 1 <= k < b.len() implies #[trigger] self.timed_at(b, k, 0, 0) by {
            if k < n {
                assert(self.timed_at(a, k, 0, 0));
            }
        }
        assert forall|m: int| 1 <= m < old.route.len() implies #[trigger] self.feasible(
            b[m - 1].client_id as int,
            b[m].client_id as int,
            b[m - 1].leave_time as int,
        ) by {
            assert(self.feasible(
                a[m - 1].client_id as int,
                a[m].client_id as int,
                a[m - 1].leave_time as int,
            ));
        }
    }

    /// A route that is being built is still being built after its vehicle
    /// has moved on to a client that it reaches in time.
    pub proof fn lemma_building_step(&self, old: &GraspRoute, new: &GraspRoute, v: int, t: int)
        requires
            self.wf(),
            self.building(old, v),
            0 <= t < self.clients.len(),
            t != self.source,
            self.moved_on(old, new, t),
            self.feasible(old.current_client_id as int, t, old.current_time as int),
        ensures
            self.building(new, v),
            new.route.len() == old.route.len() + 1,
    {
        self.lemma_route_step(old, new, v, t);
        let a = old.route@;
        let b = new.route@;
        assert(LIMIT == 0x4000_0000 && HORIZON == 0x1000_0000_0000_0000 && LATEST_ARRIVAL
            == 0x8_0000_0000_0000);
        assert(a.last().client_id < self.clients.len());
        self.lemma_feasible_bound(old.current_client_id as int, t, old.current_time as int);
        assert(client_ok(self.clients@[t], t));
        assert(b.last().leave_time <= LATEST_ARRIVAL + LIMIT);
        assert forall|k: int| 0 <= k < b.len() implies (#[trigger] b[k]).leave_time <= HORIZON - 2
            * LIMIT by {
            if k < a.len() {
                assert(b[k] == a[k]);
            }
        }
        assert forall|k: int| 1 <= k < b.len() implies (#[trigger] b[k]).client_id
            != self.source by {
            if k < a.len() {
                assert(b[k] == a[k]);
            }
        }
        assert forall|m: int| 1 <= m < b.len() && 1 <= m implies #[trigger] self.feasible(
            b[m - 1].client_id as int,
            b[m].client_id as int,
            b[m - 1].leave_time as int,
        ) by {
            if m == a.len() {
                assert(b[m - 1] == a.last());
            }
        }
    }
}

impl ProblemInstance {
    /// The route of a vehicle that has gone back to the depot is as the
    /// search keeps it, every stop but the return is reached in time, and
    /// it visits every client but the depot as often as before the return.
    pub proof fn lemma_closed_sound(&self, old: &GraspRoute, new: &GraspRoute, v: int, r: RouteModel)
        requires
            self.wf(),
            self.building(old, v),
            2 <= old.route.len() < MAX_STOPS,
            self.moved_on(old, new, self.source as int),
            r.vehicle_id == v,
            r.clients == new.route@,
            r.route_fixed_cost == self.vehicles@[v].fixed_cost,
            r.route_time == new.route_time,
            r.route_variable_cost == new.route_time * self.vehicles@[v].variable_cost,
            r.demand == self.vehicles@[v].capacity - new.capacity_left,
        ensures
            self.route_sound(r),
            self.on_time_until_return(r.clients),
            forall|c: usize|
                c != self.source ==> #[trigger] count_in(r.ids(), c) == count_in(
                    stop_ids(old.route@),
                    c,
                ),
    {
        let t = self.source as int;
        self.lemma_route_step(old, new, v, t);
        let a = old.route@;
        let b = new.route@;
        assert(LIMIT == 0x4000_0000 && HORIZON == 0x1000_0000_0000_0000 && MAX_STOPS == 0x1_0000);
        assert forall|k: int| 0 <= k < b.len() implies (#[trigger] b[k]).leave_time <= HORIZON by {
            if k < a.len() {
                assert(b[k] == a[k]);
                assert(a[k].leave_time <= HORIZON - 2 * LIMIT);
            } else {
                assert(a.last().leave_time <= HORIZON - 2 * LIMIT);
            }
        }
        assert forall|k: int| 0 < k < b.len() - 1 implies (#[trigger] b[k]).client_id
            != self.source by {
            assert(b[k] == a[k]);
        }
        assert(b[0] == a[0]);
        self.lemma_costed_ok(r);
        assert(r =~= self.costed(r));
        assert forall|c: usize| c != self.source implies #[trigger] count_in(r.ids(), c)
            == count_in(stop_ids(old.route@), c) by {
            assert(r.ids() =~= stop_ids(a).push(self.source));
            lemma_count_push(stop_ids(a), self.source, c);
        }
    }
}

impl Grasp {
    /// The time for which a vehicle that reaches a client at `reach` waits
    /// for its window to open.
    pub open spec fn wait_for(problem: &ProblemInstance, c: int, reach: int) -> int {
        let client = problem.clients@[c];
        if client.earliest > reach {
            client.earliest - reach
        } else {
            0
        }
    }

    /// The time at which a vehicle that reaches a client at `reach` can
    /// start there.
    pub open spec fn start_at(problem: &ProblemInstance, c: int, reach: int) -> int {
        let client = problem.clients@[c];
        if reach > client.earliest {
            reach
        } else {
            client.earliest as int
        }
    }

    /// The vehicle can go on to client `c`: it has the capacity, it does
    /// not wait longer than allowed, and it reaches the client in time.
    pub open spec fn candidate(&self, problem: &ProblemInstance, g: &GraspRoute, c: int) -> bool {
        let reach = g.current_time + problem.dist(g.current_client_id as int, c);
        &&& problem.clients@[c].demand <= g.capacity_left
        &&& Self::wait_for(problem, c, reach) <= self.config.max_wait_time
        &&& problem.feasible(g.current_client_id as int, c, g.current_time as int)
    }

    /// The cost of the move of a vehicle to client `c`, where it starts at
    /// `arrival_time` after waiting for `wait_time`, in thousandths of a
    /// cost unit: the weighted fixed cost of the vehicle if it stands at
    /// the depot, the weighted cost of the travel, the weighted time until
    /// the window closes, the weighted wait, and the penalty for the time
    /// after the window has closed.
    pub open spec fn cost_of(
        &self,
        problem: &ProblemInstance,
        g: &GraspRoute,
        c: int,
        arrival_time: int,
        wait_time: int,
    ) -> int {
        let vehicle = problem.vehicles@[g.vehicle_id as int];
        let client = problem.clients@[c];
        (if problem.source == g.current_client_id {
            self.config.new_vehicle_penalty_weight * vehicle.fixed_cost
        } else {
            0
        }) + self.config.distance_weight * problem.dist(g.current_client_id as int, c)
            * vehicle.variable_cost + self.config.time_weight * (if client.latest > arrival_time {
            client.latest - arrival_time
        } else {
            0
        }) + self.config.wait_time_weight * wait_time + SCALE * problem.deviation_penalty * (
        if arrival_time > client.latest {
            arrival_time - client.latest
        } else {
            0
        })
    }

    /// The cost of the move of the vehicle to client `c`.
    pub open spec fn move_cost(&self, problem: &ProblemInstance, g: &GraspRoute, c: int) -> int {
        let reach = g.current_time + problem.dist(g.current_client_id as int, c);
        self.cost_of(
            problem,
            g,
            c,
            Self::start_at(problem, c, reach),
            Self::wait_for(problem, c, reach),
        )
    }

    /// Vehicle `v` can go from the depot straight to client `c`.
    pub open spec fn direct(&self, problem: &ProblemInstance, v: int, c: int) -> bool {
        let leave = problem.opening_stop().leave_time;
        let reach = leave + problem.dist(problem.source as int, c);
        &&& problem.clients@[c].demand <= problem.vehicles@[v].capacity
        &&& Self::wait_for(problem, c, reach) <= self.config.max_wait_time
        &&& problem.feasible(problem.source as int, c, leave as int)
    }

    /// No construction can fail: a move is chosen whenever there is one,
    /// there is a vehicle for every client, and every vehicle can go from
    /// the depot straight to every client.
    pub open spec fn always_builds(&self, problem: &ProblemInstance) -> bool {
        &&& self.config.rcl_min_size >= 1
        &&& problem.vehicles.len() + 1 >= problem.clients.len()
        &&& forall|v: int, c: int|
            0 <= v < problem.vehicles.len() && 0 <= c < problem.clients.len() && c
                != problem.source ==> #[trigger] self.direct(problem, v, c)
    }

    /// Client `c` demands more than any vehicle can carry.
    pub open spec fn too_heavy(problem: &ProblemInstance, c: int) -> bool {
        &&& 0 <= c < problem.clients.len()
        &&& c != problem.source
        &&& forall|v: int|
            0 <= v < problem.vehicles.len() ==> problem.clients@[c].demand > (
            #[trigger] problem.vehicles@[v]).capacity
    }

    /// Every construction fails: some client demands more than any vehicle
    /// can carry.
    pub open spec fn never_builds(problem: &ProblemInstance) -> bool {
        exists|c: int| #[trigger] Self::too_heavy(problem, c)
    }

    /// The clients, of those still to be visited, that the vehicle can go
    /// on to, in their order.
    pub open spec fn candidates(
        &self,
        problem: &ProblemInstance,
        g: &GraspRoute,
        available: Seq<usize>,
    ) -> Seq<usize> {
        available.filter(|c: usize| self.candidate(problem, g, c as int))
    }

    /// The costs of the moves of the vehicle to these clients.
    pub open spec fn costs_to(
        &self,
        problem: &ProblemInstance,
        g: &GraspRoute,
        clients: Seq<usize>,
    ) -> Seq<Cost> {
        Seq::new(clients.len(), |x: int| self.move_cost(problem, g, clients[x] as int) as Cost)
    }

    /// The costs in the order that `order` gives.
    pub open spec fn in_order(costs: Seq<Cost>, order: Seq<usize>) -> Seq<Cost> {
        Seq::new(costs.len(), |x: int| costs[order[x] as int])
    }

    /// The number of moves that a vehicle offers, of moves with these
    /// costs by ascending cost: one more than the largest index within the
    /// greediness for one vehicle, or the least number asked for if that
    /// is more, but no more than there are.
    pub open spec fn quota(&self, costs: Seq<Cost>) -> int {
        let by_alpha = last_within(costs, self.config.moves_per_vehicle_alpha, costs.len()) + 1;
        let wanted = if by_alpha > self.config.moves_per_vehicle_min_size {
            by_alpha
        } else {
            self.config.moves_per_vehicle_min_size as int
        };
        if wanted < costs.len() {
            wanted
        } else {
            costs.len() as int
        }
    }

    /// `moves` are what the vehicle offers: with `order` listing the
    /// clients it can go on to by the cost of the move, those of equal
    /// cost in their own order, the moves to the first of them, as many as
    /// the quota says.
    pub open spec fn offered(
        &self,
        problem: &ProblemInstance,
        g: &GraspRoute,
        available: Seq<usize>,
        order: Seq<usize>,
        moves: Seq<GraspRouteMove>,
    ) -> bool {
        let clients = self.candidates(problem, g, available);
        let costs = self.costs_to(problem, g, clients);
        &&& ordered(costs, order)
        &&& moves.len() == self.quota(Self::in_order(costs, order))
        &&& forall|x: int|
            0 <= x < moves.len() ==> #[trigger] moves[x] == (GraspRouteMove {
                vehicle_id: g.vehicle_id,
                target_client_id: clients[order[x] as int],
                cost: costs[order[x] as int],
            })
    }

    /// `moves` are what the vehicle offers.
    pub open spec fn offers(
        &self,
        problem: &ProblemInstance,
        g: &GraspRoute,
        available: Seq<usize>,
        moves: Seq<GraspRouteMove>,
    ) -> bool {
        exists|order: Seq<usize>| #[trigger] self.offered(problem, g, available, order, moves)
    }

    /// The moves from `cuts[v]` up to `cuts[v + 1]` are what vehicle `v`
    /// offers.
    pub open spec fn cut_at(
        &self,
        problem: &ProblemInstance,
        routes: Seq<GraspRoute>,
        available: Seq<usize>,
        moves: Seq<GraspRouteMove>,
        cuts: Seq<int>,
        v: int,
    ) -> bool {
        &&& 0 <= cuts[v] <= cuts[v + 1] <= moves.len()
        &&& self.offers(problem, &routes[v], available, moves.subrange(cuts[v], cuts[v + 1]))
    }

    /// `moves` are what all vehicles offer, vehicle by vehicle: the moves
    /// from `cuts[v]` up to `cuts[v + 1]` are what vehicle `v` offers.
    pub open spec fn pooled(
        &self,
        problem: &ProblemInstance,
        routes: Seq<GraspRoute>,
        available: Seq<usize>,
        moves: Seq<GraspRouteMove>,
        cuts: Seq<int>,
    ) -> bool {
        &&& cuts.len() == routes.len() + 1
        &&& cuts[0] == 0
        &&& cuts.last() == moves.len()
        &&& forall|v: int|
            0 <= v < routes.len() ==> #[trigger] self.cut_at(
                problem,
                routes,
                available,
                moves,
                cuts,
                v,
            )
    }

    /// What all vehicles up to `v` offer, followed by what vehicle `v`
    /// offers, is what all vehicles up to and with `v` offer.
    pub proof fn lemma_pool_grows(
        &self,
        problem: &ProblemInstance,
        routes: Seq<GraspRoute>,
        available: Seq<usize>,
        before: Seq<GraspRouteMove>,
        added: Seq<GraspRouteMove>,
        cuts: Seq<int>,
        v: int,
    )
        requires
            0 <= v < routes.len(),
            self.pooled(problem, routes.take(v), available, before, cuts),
            self.offers(problem, &routes[v], available, added),
        ensures
            self.pooled(
                problem,
                routes.take(v + 1),
                available,
                before + added,
                cuts.push((before.len() + added.len()) as int),
            ),
    {
        let moves = before + added;
        let next = cuts.push((before.len() + added.len()) as int);
        let some = routes.take(v + 1);
        assert forall|x: int| 0 <= x < some.len() implies #[trigger] self.cut_at(
            problem,
            some,
            available,
            moves,
            next,
            x,
        ) by {
            if x < v {
                assert(self.cut_at(problem, routes.take(v), available, before, cuts, x));
                assert(moves.subrange(next[x], next[x + 1]) =~= before.subrange(
                    cuts[x],
                    cuts[x + 1],
                ));
            } else {
                assert(moves.subrange(next[x], next[x + 1]) =~= added);
            }
        }
    }

    /// The move is one that its vehicle can make to a client that is still
    /// to be visited, at its cost.
    pub open spec fn valid_move(
        &self,
        problem: &ProblemInstance,
        routes: Seq<GraspRoute>,
        available: Seq<usize>,
        m: GraspRouteMove,
    ) -> bool {
        &&& m.vehicle_id < routes.len()
        &&& available.contains(m.target_client_id)
        &&& self.candidate(problem, &routes[m.vehicle_id as int], m.target_client_id as int)
        &&& m.cost == self.move_cost(
            problem,
            &routes[m.vehicle_id as int],
            m.target_client_id as int,
        )
        &&& m.cost <= COST_CAP
    }

    /// No vehicle can go on to any client that is still to be visited.
    pub open spec fn stuck(
        &self,
        problem: &ProblemInstance,
        routes: Seq<GraspRoute>,
        available: Seq<usize>,
    ) -> bool {
        forall|v: int, k: int|
            0 <= v < routes.len() && 0 <= k < available.len() ==> !#[trigger] self.candidate(
                problem,
                &routes[v],
                available[k] as int,
            )
    }

    /// The cost of a move is at most `COST_CAP`.
    pub proof fn lemma_cost_bound(
        &self,
        problem: &ProblemInstance,
        g: &GraspRoute,
        c: int,
        arrival_time: int,
        wait_time: int,
    )
        requires
            problem.wf(),
            self.config.wf(),
            g.vehicle_id < problem.vehicles.len(),
            g.current_client_id < problem.clients.len(),
            0 <= c < problem.clients.len(),
            0 <= arrival_time <= HORIZON,
            0 <= wait_time <= LIMIT,
        ensures
            0 <= self.cost_of(problem, g, c, arrival_time, wait_time) <= COST_CAP,
            0 <= self.config.new_vehicle_penalty_weight * problem.vehicles@[g.vehicle_id as int].fixed_cost
                <= LIMIT * LIMIT,
            0 <= self.config.distance_weight * problem.dist(g.current_client_id as int, c) <= LIMIT
                * LIMIT,
            0 <= self.config.distance_weight * problem.dist(g.current_client_id as int, c)
                * problem.vehicles@[g.vehicle_id as int].variable_cost <= LIMIT * LIMIT * LIMIT,
            0 <= self.config.time_weight * LIMIT <= LIMIT * LIMIT,
            0 <= self.config.wait_time_weight * wait_time <= LIMIT * LIMIT,
            0 <= SCALE * problem.deviation_penalty <= SCALE * LIMIT,
            0 <= SCALE * problem.deviation_penalty * HORIZON <= SCALE * LIMIT * HORIZON,
    {
        let vehicle = problem.vehicles@[g.vehicle_id as int];
        let client = problem.clients@[c];
        assert(vehicle_ok(vehicle, g.vehicle_id as int));
        assert(client_ok(client, c));
        assert(row_ok(problem.distances@[g.current_client_id as int]@, problem.clients.len() as int));
        let d = problem.dist(g.current_client_id as int, c) as int;
        assert(d <= LIMIT);
        let npw = self.config.new_vehicle_penalty_weight as int;
        let dw = self.config.distance_weight as int;
        let tw = self.config.time_weight as int;
        let ww = self.config.wait_time_weight as int;
        let pen = problem.deviation_penalty as int;
        let fixed = vehicle.fixed_cost as int;
        let var = vehicle.variable_cost as int;
        let early = if client.latest > arrival_time {
            client.latest - arrival_time
        } else {
            0
        };
        let late = if arrival_time > client.latest {
            arrival_time - client.latest
        } else {
            0
        };
        assert(LIMIT == 0x4000_0000 && HORIZON == 0x1000_0000_0000_0000 && SCALE == 1000
            && COST_CAP == 0x100_0000_0000_0000_0000_0000_0000);
        assert(0 <= npw * fixed <= LIMIT * LIMIT) by (nonlinear_arith)
            requires
                0 <= npw <= LIMIT,
                0 <= fixed <= LIMIT,
        ;
        assert(0 <= dw * d <= LIMIT * LIMIT) by (nonlinear_arith)
            requires
                0 <= dw <= LIMIT,
                0 <= d <= LIMIT,
        ;
        assert(0 <= dw * d * var <= LIMIT * LIMIT * LIMIT) by (nonlinear_arith)
            requires
                0 <= dw * d <= LIMIT * LIMIT,
                0 <= var <= LIMIT,
        ;
        assert(0 <= tw * early <= LIMIT * LIMIT) by (nonlinear_arith)
            requires
                0 <= tw <= LIMIT,
                0 <= early <= LIMIT,
        ;
        assert(0 <= tw * LIMIT <= LIMIT * LIMIT) by (nonlinear_arith)
            requires
                0 <= tw <= LIMIT,
        ;
        assert(0 <= ww * wait_time <= LIMIT * LIMIT) by (nonlinear_arith)
            requires
                0 <= ww <= LIMIT,
                0 <= wait_time <= LIMIT,
        ;
        assert(0 <= SCALE * pen <= SCALE * LIMIT) by (nonlinear_arith)
            requires
                0 <= pen <= LIMIT,
        ;
        assert(0 <= SCALE * pen * late <= SCALE * LIMIT * HORIZON) by (nonlinear_arith)
            requires
                0 <= SCALE * pen <= SCALE * LIMIT,
                0 <= late <= HORIZON,
        ;
        assert(0 <= SCALE * pen * HORIZON <= SCALE * LIMIT * HORIZON) by (nonlinear_arith)
            requires
                0 <= SCALE * pen <= SCALE * LIMIT,
        ;
    }
}

} // verus!
