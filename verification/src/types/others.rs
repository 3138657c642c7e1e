use vstd::prelude::*;

verus! {

/// An instant or a duration, in ticks.
pub type Time = u64;

/// An amount of money, in cost units.
pub type Cost = u128;

/// The denominator of every fractional parameter: such a parameter is given
/// in thousandths.
pub const SCALE: u64 = 1000;

/// The largest value that a scalar of a problem instance may have.
pub const LIMIT: u64 = 0x4000_0000;

/// The latest instant at which a stop of a route may be left.
pub const HORIZON: u64 = 0x1000_0000_0000_0000;

/// The largest number of stops that a route may have.
pub const MAX_STOPS: usize = 0x1_0000;

/// The largest number of routes that a solution may have.
pub const MAX_ROUTES: usize = 0x1_0000;

/// A vehicle of the fleet. Its id is its index in the fleet.
#[derive(Debug)]
pub struct Vehicle {
    pub id: usize,
    pub capacity: u64,
    pub fixed_cost: Cost,
    pub variable_cost: Cost,
}

/// A group of `count` vehicles that share capacity and costs.
#[derive(Debug)]
pub struct VehicleDefinition {
    pub count: i32,
    pub capacity: u64,
    pub fixed_cost: Cost,
    pub variable_cost: Cost,
}

/// A client with its demand and time window. Its id is its index in the
/// client list; `pos` is carried along and never read.
#[derive(Debug)]
pub struct Client {
    pub id: usize,
    pub demand: u64,
    pub service_time: Time,
    pub earliest: Time,
    pub latest: Time,
    pub pos: [i64; 2],
}

/// One stop of a route, with the times at which the vehicle arrives and
/// leaves and the time it waits for the window to open.
#[derive(Debug, Clone, Copy, PartialEq, Eq, Structural)]
pub struct RouteEntryClient {
    pub client_id: usize,
    pub arrive_time: Time,
    pub leave_time: Time,
    pub wait_time: Time,
}

/// The route of one vehicle with its derived time, costs and load.
#[derive(Debug, PartialEq, Eq)]
pub struct RouteEntry {
    pub vehicle_id: usize,
    pub clients: Vec<RouteEntryClient>,
    pub route_time: Time,
    pub route_fixed_cost: Cost,
    pub route_variable_cost: Cost,
    pub demand: u64,
}

/// What a route is, as a mathematical value.
pub struct RouteModel {
    pub vehicle_id: usize,
    pub clients: Seq<RouteEntryClient>,
    pub route_time: Time,
    pub route_fixed_cost: Cost,
    pub route_variable_cost: Cost,
    pub demand: u64,
}

impl RouteModel {
    /// The cost of the route: fixed plus variable.
    pub open spec fn route_cost(self) -> int {
        self.route_fixed_cost + self.route_variable_cost
    }

    /// The client ids of the stops, in order.
    pub open spec fn ids(self) -> Seq<usize> {
        stop_ids(self.clients)
    }
}

/// The client ids of a sequence of stops, in order.
pub open spec fn stop_ids(clients: Seq<RouteEntryClient>) -> Seq<usize> {
    Seq::new(clients.len(), |k: int| clients[k].client_id)
}

impl View for RouteEntry {
    type V = RouteModel;

    open spec fn view(&self) -> RouteModel {
        RouteModel {
            vehicle_id: self.vehicle_id,
            clients: self.clients@,
            route_time: self.route_time,
            route_fixed_cost: self.route_fixed_cost,
            route_variable_cost: self.route_variable_cost,
            demand: self.demand,
        }
    }
}

impl Default for RouteEntry {
    /// The empty route of vehicle 0, with no time, cost or load.
    fn default() -> (r: RouteEntry)
        ensures
            r@ == (RouteModel {
                vehicle_id: 0,
                clients: Seq::empty(),
                route_time: 0,
                route_fixed_cost: 0,
                route_variable_cost: 0,
                demand: 0,
            }),
    {
        RouteEntry {
            vehicle_id: 0,
            clients: Vec::new(),
            route_time: 0,
            route_fixed_cost: 0,
            route_variable_cost: 0,
            demand: 0,
        }
    }
}

impl Clone for RouteEntry {
    /// A copy of the route.
    fn clone(&self) -> (r: RouteEntry)
        ensures
            r@ == self@,
    {
        let clients = copy_stops(&self.clients, 0, self.clients.len());
        proof {
            assert(clients@ =~= self.clients@);
        }
        RouteEntry {
            vehicle_id: self.vehicle_id,
            clients,
            route_time: self.route_time,
            route_fixed_cost: self.route_fixed_cost,
            route_variable_cost: self.route_variable_cost,
            demand: self.demand,
        }
    }
}

impl RouteEntry {
    /// The cost of the route: fixed plus variable.
    pub fn route_cost(&self) -> (r: Cost)
        requires
            self@.route_cost() <= u128::MAX,
        ensures
            r == self@.route_cost(),
    {
        self.route_fixed_cost + self.route_variable_cost
    }
}

/// Copies the stops `from..to` of a list.
pub fn copy_stops(stops: &Vec<RouteEntryClient>, from: usize, to: usize) -> (r: Vec<
    RouteEntryClient,
>)
    requires
        from <= to <= stops.len(),
    ensures
        r@ == stops@.subrange(from as int, to as int),
{
    let mut out: Vec<RouteEntryClient> = Vec::new();
    let mut i: usize = from;
    while i < to
        invariant
            from <= i <= to <= stops.len(),
            out@ == stops@.subrange(from as int, i as int),
        decreases to - i,
    {
        out.push(stops[i]);
        proof {
            assert(out@ =~= stops@.subrange(from as int, i + 1));
        }
        i += 1;
    }
    out
}

} // verus!
