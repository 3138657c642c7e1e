use vstd::prelude::*;
use super::others::{
    Client, Cost, RouteEntry, RouteEntryClient, RouteModel, Time, Vehicle, VehicleDefinition,
    LIMIT, MAX_ROUTES, MAX_STOPS, SCALE,
};
use super::solution::{lemma_total_cost_grows, total_cost, Solution, SolutionModel};
use crate::utils::time_max;

verus! {

/// A problem: the clients with the depot among them, the fleet, the travel
/// times between clients, and how lateness is tolerated and priced.
#[derive(Debug)]
pub struct ProblemInstance {
    pub name: String,
    /// The client that is the depot.
    pub source: usize,
    /// The cost of one tick of overtime.
    pub deviation_penalty: Cost,
    /// The slack on the end of a time window, in thousandths of the
    /// window's length.
    pub allowed_deviation: u64,
    /// The travel time from each client to each client.
    pub distances: Vec<Vec<Time>>,
    pub vehicle_definitions: Vec<VehicleDefinition>,
    /// The fleet, expanded from the definitions by `init`.
    pub vehicles: Vec<Vehicle>,
    pub clients: Vec<Client>,
    /// Whether `init` has run.
    pub inited: bool,
}

impl Default for ProblemInstance {
    /// The instance without clients, vehicles or travel times, with the
    /// depot at index 0 and no tolerance for lateness.
    fn default() -> (r: ProblemInstance)
        ensures
            r.name@ == "Unnamed instance"@,
            r.source == 0,
            r.deviation_penalty == 0,
            r.allowed_deviation == 0,
            r.distances@.len() == 0,
            r.vehicle_definitions@.len() == 0,
            r.vehicles@.len() == 0,
            r.clients@.len() == 0,
            !r.inited,
    {
        ProblemInstance {
            name: "Unnamed instance".to_owned(),
            source: 0,
            deviation_penalty: 0,
            allowed_deviation: 0,
            distances: Vec::new(),
            vehicle_definitions: Vec::new(),
            vehicles: Vec::new(),
            clients: Vec::new(),
            inited: false,
        }
    }
}

/// A client whose id is its index `i`, with scalars within the limit and a
/// window that does not end before it starts.
pub open spec fn client_ok(c: Client, i: int) -> bool {
    &&& c.id == i
    &&& c.demand <= LIMIT
    &&& c.service_time <= LIMIT
    &&& c.earliest <= c.latest
    &&& c.latest <= LIMIT
}

/// A vehicle whose id is its index `i`, with scalars within the limit.
pub open spec fn vehicle_ok(v: Vehicle, i: int) -> bool {
    &&& v.id == i
    &&& v.capacity <= LIMIT
    &&& v.fixed_cost <= LIMIT
    &&& v.variable_cost <= LIMIT
}

/// A row of `n` travel times within the limit.
pub open spec fn row_ok(row: Seq<Time>, n: int) -> bool {
    &&& row.len() == n
    &&& forall|j: int| 0 <= j < n ==> #[trigger] row[j] <= LIMIT
}

/// The vehicles that a definition stands for, with the ids from `first` on.
/// Where the search is not to optimise money, each vehicle costs 1 to use
/// and 1 per tick.
pub open spec fn group(def: VehicleDefinition, first: int, optimize_cost: bool) -> Seq<Vehicle> {
    Seq::new(
        def.count as nat,
        |k: int|
            Vehicle {
                id: (first + k) as usize,
                capacity: def.capacity,
                fixed_cost: if optimize_cost {
                    def.fixed_cost
                } else {
                    1
                },
                variable_cost: if optimize_cost {
                    def.variable_cost
                } else {
                    1
                },
            },
    )
}

/// The fleet that the first `m` definitions stand for: their groups in
/// order, with consecutive ids from 0 on.
pub open spec fn fleet(defs: Seq<VehicleDefinition>, m: nat, optimize_cost: bool) -> Seq<Vehicle>
    decreases m,
{
    if m == 0 {
        Seq::empty()
    } else {
        let before = fleet(defs, (m - 1) as nat, optimize_cost);
        before + group(defs[m - 1], before.len() as int, optimize_cost)
    }
}

/// The clients with their indexes as ids.
pub open spec fn numbered(clients: Seq<Client>) -> Seq<Client> {
    Seq::new(clients.len(), |i: int| Client { id: i as usize, ..clients[i] })
}

/// No definition has a negative count.
pub open spec fn counts_ok(defs: Seq<VehicleDefinition>) -> bool {
    forall|d: int| 0 <= d < defs.len() ==> (#[trigger] defs[d]).count >= 0
}

/// The fleet of a prefix of the definitions is a prefix of the whole fleet.
pub proof fn lemma_fleet_grows(defs: Seq<VehicleDefinition>, k: nat, m: nat, optimize_cost: bool)
    requires
        k <= m,
    ensures
        fleet(defs, k, optimize_cost).len() <= fleet(defs, m, optimize_cost).len(),
    decreases m,
{
    if k < m {
        lemma_fleet_grows(defs, k, (m - 1) as nat, optimize_cost);
    }
}

impl ProblemInstance {
    /// The travel time from client `a` to client `b`.
    pub open spec fn dist(&self, a: int, b: int) -> Time {
        self.distances@[a]@[b]
    }

    /// The instance is ready for the search: the depot is a client, the
    /// travel times form a square matrix over the clients, clients and
    /// vehicles carry their indexes as ids, every scalar and both counts are
    /// within the limits, no window ends before it starts, and the depot has
    /// no demand.
    pub open spec fn wf(&self) -> bool {
        &&& 1 <= self.clients.len() < MAX_STOPS
        &&& self.source < self.clients.len()
        &&& self.distances.len() == self.clients.len()
        &&& forall|i: int|
            0 <= i < self.distances.len() ==> row_ok(
                #[trigger] self.distances@[i]@,
                self.clients.len() as int,
            )
        &&& 1 <= self.vehicles.len() <= MAX_ROUTES
        &&& forall|v: int| 0 <= v < self.vehicles.len() ==> vehicle_ok(#[trigger] self.vehicles@[v], v)
        &&& forall|c: int| 0 <= c < self.clients.len() ==> client_ok(#[trigger] self.clients@[c], c)
        &&& self.clients@[self.source as int].demand == 0
        &&& self.deviation_penalty <= LIMIT
        &&& self.allowed_deviation <= LIMIT
    }

    /// Every stop is a client of the instance.
    pub open spec fn stops_known(&self, clients: Seq<RouteEntryClient>) -> bool {
        forall|k: int| 0 <= k < clients.len() ==> (#[trigger] clients[k]).client_id < self.clients.len()
    }

    /// The stop made at client `to` by a vehicle that sets out at
    /// `current_time` and travels for `arc_time`: it arrives when the travel
    /// ends or when the window opens, whichever is later, waits until then,
    /// and leaves after the service.
    pub open spec fn stop_at(&self, arc_time: Time, to: int, current_time: Time) -> RouteEntryClient {
        let c = self.clients@[to];
        let reach = current_time + arc_time;
        let arrive = if reach > c.earliest {
            reach
        } else {
            c.earliest as int
        };
        RouteEntryClient {
            client_id: to as usize,
            arrive_time: arrive as Time,
            leave_time: (arrive + c.service_time) as Time,
            wait_time: (if c.earliest > reach {
                c.earliest - reach
            } else {
                0
            }) as Time,
        }
    }

    /// The times of `stop_at` fit the machine's integers.
    pub open spec fn stop_fits(&self, arc_time: Time, to: int, current_time: Time) -> bool {
        let c = self.clients@[to];
        current_time + arc_time + c.service_time <= u64::MAX && c.earliest + c.service_time
            <= u64::MAX
    }

    /// A vehicle that leaves `from` at `current_time` reaches `to` before
    /// the end of its window, extended by the allowed deviation.
    pub open spec fn feasible(&self, from: int, to: int, current_time: int) -> bool {
        let c = self.clients@[to];
        (current_time + self.dist(from, to)) * SCALE < c.latest * SCALE + self.allowed_deviation
            * (c.latest - c.earliest)
    }

    /// The travel time of the arc into stop `k`: from the stop before it, or,
    /// for the first stop, from that stop to itself.
    pub open spec fn arc_into(&self, clients: Seq<RouteEntryClient>, k: int) -> Time {
        if k == 0 {
            self.dist(clients[0].client_id as int, clients[0].client_id as int)
        } else {
            self.dist(clients[k - 1].client_id as int, clients[k].client_id as int)
        }
    }

    /// The total travel time of the arcs into the first `k` stops.
    pub open spec fn travel_time(&self, clients: Seq<RouteEntryClient>, k: nat) -> int
        decreases k,
    {
        if k == 0 {
            0
        } else {
            self.travel_time(clients, (k - 1) as nat) + self.arc_into(clients, k - 1)
        }
    }

    /// The total demand of the first `k` stops.
    pub open spec fn load(&self, clients: Seq<RouteEntryClient>, k: nat) -> int
        decreases k,
    {
        if k == 0 {
            0
        } else {
            self.load(clients, (k - 1) as nat) + self.clients@[clients[k
                - 1].client_id as int].demand
        }
    }

    /// The route with its time, costs and load derived anew from its stops:
    /// the time is the total travel time, the load the total demand, the
    /// fixed cost that of the vehicle unless the route is empty, and the
    /// variable cost the vehicle's rate times the travel time.
    pub open spec fn costed(&self, route: RouteModel) -> RouteModel {
        let n = route.clients.len();
        let vehicle = self.vehicles@[route.vehicle_id as int];
        RouteModel {
            vehicle_id: route.vehicle_id,
            clients: route.clients,
            route_time: self.travel_time(route.clients, n) as Time,
            route_fixed_cost: if n == 0 {
                0
            } else {
                vehicle.fixed_cost
            },
            route_variable_cost: (self.travel_time(route.clients, n)
                * vehicle.variable_cost) as Cost,
            demand: self.load(route.clients, n) as u64,
        }
    }

    /// The travel time and the load of the first `k` stops are bounded by
    /// `k` times the limit.
    pub proof fn lemma_totals_bounded(&self, clients: Seq<RouteEntryClient>, k: nat)
        requires
            self.wf(),
            self.stops_known(clients),
            k <= clients.len(),
        ensures
            0 <= self.travel_time(clients, k) <= k * LIMIT,
            0 <= self.load(clients, k) <= k * LIMIT,
        decreases k,
    {
        if k > 0 {
            self.lemma_totals_bounded(clients, (k - 1) as nat);
            let a = clients[k - 1].client_id as int;
            let b = if k == 1 {
                a
            } else {
                clients[k - 2].client_id as int
            };
            assert(row_ok(self.distances@[b]@, self.clients.len() as int));
            assert(self.distances@[b]@[a] <= LIMIT);
            assert(client_ok(self.clients@[a], a));
            assert((k - 1) * LIMIT + LIMIT == k * LIMIT) by (nonlinear_arith);
        }
    }

    /// The size of the fleet that the definitions stand for; nothing if a
    /// definition has a negative count or the size does not fit the
    /// machine's integers. `init` can be called exactly where there is
    /// such a size.
    pub fn fleet_size(&self, optimize_cost: bool) -> (r: Option<usize>)
        ensures
            r is Some <==> counts_ok(self.vehicle_definitions@) && fleet(
                self.vehicle_definitions@,
                self.vehicle_definitions.len() as nat,
                optimize_cost,
            ).len() <= usize::MAX,
            r is Some ==> r.unwrap() == fleet(
                self.vehicle_definitions@,
                self.vehicle_definitions.len() as nat,
                optimize_cost,
            ).len(),
    {
        let ghost defs = self.vehicle_definitions@;
        let mut total: usize = 0;
        let mut d: usize = 0;
        while d < self.vehicle_definitions.len()
            invariant
                d <= defs.len(),
                self.vehicle_definitions@ == defs,
                forall|k: int| 0 <= k < d ==> (#[trigger] defs[k]).count >= 0,
                total == fleet(defs, d as nat, optimize_cost).len(),
            decreases defs.len() - d,
        {
            let count = self.vehicle_definitions[d].count;
            if count < 0 {
                return None;
            }
            proof {
                lemma_fleet_grows(defs, (d + 1) as nat, defs.len() as nat, optimize_cost);
            }
            if count as usize > usize::MAX - total {
                return None;
            }
            total = total + count as usize;
            d += 1;
        }
        Some(total)
    }

    /// Prepares the instance for the search, once: expands the vehicle
    /// definitions into the fleet and gives every client its index as id.
    /// A second call changes nothing.
    pub fn init(&mut self, optimize_cost: bool)
        requires
            counts_ok(old(self).vehicle_definitions@),
            fleet(
                old(self).vehicle_definitions@,
                old(self).vehicle_definitions.len() as nat,
                optimize_cost,
            ).len() <= usize::MAX,
        ensures
            final(self).name == old(self).name,
            final(self).source == old(self).source,
            final(self).deviation_penalty == old(self).deviation_penalty,
            final(self).allowed_deviation == old(self).allowed_deviation,
            final(self).distances == old(self).distances,
            final(self).vehicle_definitions == old(self).vehicle_definitions,
            final(self).inited,
            old(self).inited ==> final(self).vehicles == old(self).vehicles && final(self).clients
                == old(self).clients,
            !old(self).inited ==> final(self).vehicles@ == fleet(
                old(self).vehicle_definitions@,
                old(self).vehicle_definitions.len() as nat,
                optimize_cost,
            ) && final(self).clients@ == numbered(old(self).clients@),
    {
        if self.inited {
            return ;
        }
        self.init_vehicles(optimize_cost);
        self.init_clients();

        self.inited = true;
    }

    /// Expands the vehicle definitions into the fleet.
    fn init_vehicles(&mut self, optimize_cost: bool)
        requires
            counts_ok(old(self).vehicle_definitions@),
            fleet(
                old(self).vehicle_definitions@,
                old(self).vehicle_definitions.len() as nat,
                optimize_cost,
            ).len() <= usize::MAX,
        ensures
            final(self).name == old(self).name,
            final(self).source == old(self).source,
            final(self).deviation_penalty == old(self).deviation_penalty,
            final(self).allowed_deviation == old(self).allowed_deviation,
            final(self).distances == old(self).distances,
            final(self).vehicle_definitions == old(self).vehicle_definitions,
            final(self).clients == old(self).clients,
            final(self).inited == old(self).inited,
            final(self).vehicles@ == fleet(
                old(self).vehicle_definitions@,
                old(self).vehicle_definitions.len() as nat,
                optimize_cost,
            ),
    {
        let mut max: usize = 0;
        let mut vehicles: Vec<Vehicle> = Vec::new();
        let ghost defs = self.vehicle_definitions@;
        let mut d: usize = 0;
        while d < self.vehicle_definitions.len()
            invariant
                d <= defs.len(),
                self.vehicle_definitions@ == defs,
                counts_ok(defs),
                fleet(defs, defs.len() as nat, optimize_cost).len() <= usize::MAX,
                vehicles@ == fleet(defs, d as nat, optimize_cost),
                max == vehicles.len(),
            decreases defs.len() - d,
        {
            let vehicle_def = &self.vehicle_definitions[d];
            let min = max;
            proof {
                lemma_fleet_grows(defs, (d + 1) as nat, defs.len() as nat, optimize_cost);
                assert(defs[d as int].count >= 0);
            }
            max = max + vehicle_def.count as usize;
            let mut id: usize = min;
            while id < max
                invariant
                    min <= id <= max,
                    max == min + vehicle_def.count,
                    vehicle_def == defs[d as int],
                    vehicles@ == fleet(defs, d as nat, optimize_cost) + group(
                        defs[d as int],
                        min as int,
                        optimize_cost,
                    ).take(id - min),
                    min == fleet(defs, d as nat, optimize_cost).len(),
                decreases max - id,
            {
                vehicles.push(
                    Vehicle {
                        id,
                        capacity: vehicle_def.capacity,
                        fixed_cost: if optimize_cost {
                            vehicle_def.fixed_cost
                        } else {
                            1
                        },
                        variable_cost: if optimize_cost {
                            vehicle_def.variable_cost
                        } else {
                            1
                        },
                    },
                );
                proof {
                    let g = group(defs[d as int], min as int, optimize_cost);
                    assert(g.take(id - min + 1) =~= g.take(id - min).push(g[id - min]));
                    assert(vehicles@ =~= fleet(defs, d as nat, optimize_cost) + g.take(
                        id - min + 1,
                    ));
                }
                id += 1;
            }
            proof {
                let g = group(defs[d as int], min as int, optimize_cost);
                assert(g.take(max - min) =~= g);
            }
            d += 1;
        }
        self.vehicles = vehicles;
    }

    /// Gives every client its index as id.
    fn init_clients(&mut self)
        ensures
            final(self).name == old(self).name,
            final(self).source == old(self).source,
            final(self).deviation_penalty == old(self).deviation_penalty,
            final(self).allowed_deviation == old(self).allowed_deviation,
            final(self).distances == old(self).distances,
            final(self).vehicle_definitions == old(self).vehicle_definitions,
            final(self).vehicles == old(self).vehicles,
            final(self).inited == old(self).inited,
            final(self).clients@ == numbered(old(self).clients@),
    {
        let ghost before = self.clients@;
        let mut index: usize = 0;
        while index < self.clients.len()
            invariant
                index <= before.len(),
                self.clients.len() == before.len(),
                self.name == old(self).name,
                self.source == old(self).source,
                self.deviation_penalty == old(self).deviation_penalty,
                self.allowed_deviation == old(self).allowed_deviation,
                self.distances == old(self).distances,
                self.vehicle_definitions == old(self).vehicle_definitions,
                self.vehicles == old(self).vehicles,
                self.inited == old(self).inited,
                forall|i: int| 0 <= i < index ==> self.clients@[i] == numbered(before)[i],
                forall|i: int| index <= i < before.len() ==> self.clients@[i] == before[i],
            decreases before.len() - index,
        {
            self.clients[index].id = index;
            index += 1;
        }
        proof {
            assert(self.clients@ =~= numbered(before));
        }
    }

    /// Makes the stop at `client_to_id` for a vehicle that sets out at
    /// `current_time` and travels for `arc_time`.
    pub fn create_route_entry_client(
        &self,
        arc_time: Time,
        client_to_id: usize,
        current_time: Time,
    ) -> (r: RouteEntryClient)
        requires
            client_to_id < self.clients.len(),
            self.stop_fits(arc_time, client_to_id as int, current_time),
        ensures
            r == self.stop_at(arc_time, client_to_id as int, current_time),
    {
        let client_to = &self.clients[client_to_id];
        let reach = current_time + arc_time;
        let arrive_time = time_max(reach, client_to.earliest);
        let wait_time = if client_to.earliest > reach {
            client_to.earliest - reach
        } else {
            0
        };
        let leave_time = arrive_time + client_to.service_time;

        RouteEntryClient { client_id: client_to_id, arrive_time, leave_time, wait_time }
    }

    /// Derives the time, the costs and the load of a route anew from its
    /// stops.
    pub fn compute_route_costs(&self, route: &mut RouteEntry)
        requires
            self.wf(),
            old(route).vehicle_id < self.vehicles.len(),
            old(route).clients.len() <= MAX_STOPS,
            self.stops_known(old(route).clients@),
        ensures
            final(route)@ == self.costed(old(route)@),
    {
        let vehicle = &self.vehicles[route.vehicle_id];
        let ghost stops = route.clients@;

        route.route_variable_cost = 0;
        route.route_fixed_cost = 0;
        route.route_time = 0;
        route.demand = 0;

        if route.clients.len() == 0 {
            return ;
        }
        assert(vehicle_ok(self.vehicles@[route.vehicle_id as int], route.vehicle_id as int));
        route.route_fixed_cost = vehicle.fixed_cost;

        let mut prev_client_id = route.clients[0].client_id;
        let mut k: usize = 0;
        while k < route.clients.len()
            invariant
                self.wf(),
                self.stops_known(stops),
                route.clients@ == stops,
                stops.len() <= MAX_STOPS,
                k <= stops.len(),
                stops.len() > 0,
                route.vehicle_id == old(route).vehicle_id,
                vehicle == self.vehicles@[route.vehicle_id as int],
                vehicle.variable_cost <= LIMIT,
                route.route_fixed_cost == vehicle.fixed_cost,
                prev_client_id == (if k == 0 {
                    stops[0].client_id
                } else {
                    stops[k - 1].client_id
                }),
                route.route_time == self.travel_time(stops, k as nat),
                route.demand == self.load(stops, k as nat),
                route.route_variable_cost == self.travel_time(stops, k as nat)
                    * vehicle.variable_cost,
            decreases stops.len() - k,
        {
            let client_id = route.clients[k].client_id;
            assert(stops[k as int].client_id < self.clients.len());
            assert(row_ok(self.distances@[prev_client_id as int]@, self.clients.len() as int));
            let arc_time = self.distances[prev_client_id][client_id];
            proof {
                self.lemma_totals_bounded(stops, k as nat);
                self.lemma_totals_bounded(stops, (k + 1) as nat);
                assert(arc_time == self.arc_into(stops, k as int));
                assert(client_ok(self.clients@[client_id as int], client_id as int));
                let t = self.travel_time(stops, k as nat);
                let v = vehicle.variable_cost as int;
                assert((t + arc_time) * v == t * v + arc_time * v) by (nonlinear_arith);
                assert(0 <= t * v <= (MAX_STOPS * LIMIT) * LIMIT) by (nonlinear_arith)
                    requires
                        0 <= t <= k * LIMIT,
                        k <= MAX_STOPS,
                        0 <= v <= LIMIT,
                ;
                assert(0 <= arc_time * v <= LIMIT * LIMIT) by (nonlinear_arith)
                    requires
                        0 <= arc_time <= LIMIT,
                        0 <= v <= LIMIT,
                ;
                assert((k + 1) * LIMIT <= (MAX_STOPS + 1) * LIMIT) by (nonlinear_arith)
                    requires
                        k <= MAX_STOPS,
                ;
            }
            route.demand = route.demand + self.clients[client_id].demand;
            route.route_time = route.route_time + arc_time;
            route.route_variable_cost = route.route_variable_cost + (arc_time as u128)
                * vehicle.variable_cost;
            prev_client_id = client_id;
            k += 1;
        }
    }

    /// Whether a vehicle that leaves `client_from_id` at `current_time`
    /// reaches `client_to_id` in time.
    pub fn is_move_feasible(&self, client_from_id: usize, client_to_id: usize, current_time: Time) -> (r:
        bool)
        requires
            self.wf(),
            client_from_id < self.clients.len(),
            client_to_id < self.clients.len(),
        ensures
            r == self.feasible(client_from_id as int, client_to_id as int, current_time as int),
    {
        assert(row_ok(self.distances@[client_from_id as int]@, self.clients.len() as int));
        assert(client_ok(self.clients@[client_to_id as int], client_to_id as int));
        let arrival_time: u128 = self.distances[client_from_id][client_to_id] as u128
            + current_time as u128;
        let client = &self.clients[client_to_id];
        let window: u128 = (client.latest - client.earliest) as u128;
        proof {
            assert(SCALE == 1000 && LIMIT == 0x4000_0000);
            assert(arrival_time * 1000 <= (u64::MAX + LIMIT) * 1000);
            assert(self.allowed_deviation * window <= LIMIT * LIMIT) by (nonlinear_arith)
                requires
                    0 <= self.allowed_deviation <= LIMIT,
                    0 <= window <= LIMIT,
            ;
        }
        arrival_time * (SCALE as u128) < (client.latest as u128) * (SCALE as u128)
            + (self.allowed_deviation as u128) * window
    }

    /// Sets the value of a solution to the total cost of its routes and its
    /// distance to their total time.
    pub fn evaluate_sol(&self, sol: &mut Solution)
        requires
            old(sol)@.cost() <= u128::MAX,
            old(sol)@.time() <= u64::MAX,
        ensures
            final(sol)@ == (SolutionModel {
                value: old(sol)@.cost() as Cost,
                distance: old(sol)@.time() as Time,
                ..old(sol)@
            }),
            final(sol)@.evaluated(),
    {
        let mut truck_cost: Cost = 0;
        let mut i: usize = 0;
        proof {
            lemma_total_cost_grows(sol@.routes, 0, sol.routes.len() as nat);
        }
        while i < sol.routes.len()
            invariant
                i <= sol.routes.len(),
                truck_cost == total_cost(sol@.routes, i as nat),
                sol@.cost() <= u128::MAX,
            decreases sol.routes.len() - i,
        {
            proof {
                lemma_total_cost_grows(sol@.routes, (i + 1) as nat, sol.routes.len() as nat);
                lemma_total_cost_grows(sol@.routes, 0, i as nat);
            }
            truck_cost = truck_cost + sol.routes[i].route_cost();
            i += 1;
        }
        sol.value = truck_cost;
        sol.distance = sol.total_route_time();
    }
}

} // verus!
