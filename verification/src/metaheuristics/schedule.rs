use vstd::prelude::*;
use crate::types::others::{
    Cost, RouteEntry, RouteEntryClient, RouteModel, Time, HORIZON, LIMIT, MAX_STOPS, SCALE,
};
use crate::types::problem_instance::{client_ok, row_ok, vehicle_ok, ProblemInstance};

verus! {

/// The largest variable cost that a route of at most `MAX_STOPS` stops can
/// have: `MAX_STOPS * LIMIT * LIMIT`.
pub const VARIABLE_CAP: Cost = 0x1000_0000_0000_0000_0000;

/// The largest travel time that a route of at most `MAX_STOPS` stops can
/// have: `MAX_STOPS * LIMIT`.
pub const TIME_CAP: Time = 0x4000_0000_0000;

/// No client can be reached in time at or after this instant, which is
/// above `LIMIT + LIMIT * LIMIT / SCALE`.
pub const LATEST_ARRIVAL: Time = 0x8_0000_0000_0000;

impl ProblemInstance {
    /// The route can be handled: its vehicle and its stops are known, it
    /// has at most `MAX_STOPS` stops, none left after `HORIZON`, and its
    /// time and costs are within what such a route can have.
    pub open spec fn route_ok(&self, r: RouteModel) -> bool {
        &&& r.vehicle_id < self.vehicles.len()
        &&& r.clients.len() <= MAX_STOPS
        &&& self.stops_known(r.clients)
        &&& forall|k: int| 0 <= k < r.clients.len() ==> (#[trigger] r.clients[k]).leave_time <= HORIZON
        &&& r.route_fixed_cost <= LIMIT
        &&& r.route_variable_cost <= VARIABLE_CAP
        &&& r.route_time <= TIME_CAP
    }

    /// The route, unless it is empty, ends at the depot.
    pub open spec fn ends_at_depot(&self, clients: Seq<RouteEntryClient>) -> bool {
        clients.len() > 0 ==> clients.last().client_id == self.source
    }

    /// Every stop but the first is timed from the stop before it: the
    /// vehicle arrives when the travel ends or when the window opens,
    /// whichever is later, waits until then, and leaves after the service.
    pub open spec fn timed(&self, clients: Seq<RouteEntryClient>) -> bool {
        forall|k: int| 1 <= k < clients.len() ==> #[trigger] self.timed_at(clients, k, 0, 0)
    }

    /// The stop at client `id` that follows the stops `prev`, timed from
    /// the last of them; for the first stop, timed from client `from` left
    /// at `t`.
    pub open spec fn next_stop(&self, prev: Seq<RouteEntryClient>, from: int, t: Time, id: usize) -> RouteEntryClient {
        if prev.len() == 0 {
            self.stop_at(self.dist(from, id as int), id as int, t)
        } else {
            self.stop_at(
                self.dist(prev.last().client_id as int, id as int),
                id as int,
                prev.last().leave_time,
            )
        }
    }

    /// The stops `base` followed by stops at the first `k` of the clients
    /// `ids`, each timed from the stop before it.
    #[verifier::opaque]
    pub open spec fn extended(
        &self,
        base: Seq<RouteEntryClient>,
        from: int,
        t: Time,
        ids: Seq<usize>,
        k: nat,
    ) -> Seq<RouteEntryClient>
        decreases k,
    {
        if k == 0 {
            base
        } else {
            let prev = self.extended(base, from, t, ids, (k - 1) as nat);
            prev.push(self.next_stop(prev, from, t, ids[k - 1]))
        }
    }

    /// The time at which a vehicle sets out for the first stop after
    /// `base`.
    pub open spec fn start_time(base: Seq<RouteEntryClient>, t: Time) -> Time {
        if base.len() == 0 {
            t
        } else {
            base.last().leave_time
        }
    }

    /// A stop is left no earlier than the vehicle set out for it, and at
    /// most two limits later.
    pub proof fn lemma_stop_bounds(&self, from: int, to: int, t: Time)
        requires
            self.wf(),
            0 <= from < self.clients.len(),
            0 <= to < self.clients.len(),
            t + 2 * LIMIT <= u64::MAX,
        ensures
            self.stop_fits(self.dist(from, to), to, t),
            self.stop_at(self.dist(from, to), to, t).client_id == to,
            t <= self.stop_at(self.dist(from, to), to, t).leave_time <= t + 2 * LIMIT,
            self.stop_at(self.dist(from, to), to, t).arrive_time <= self.stop_at(
                self.dist(from, to),
                to,
                t,
            ).leave_time,
            self.stop_at(self.dist(from, to), to, t).arrive_time >= t + self.dist(from, to),
    {
        assert(row_ok(self.distances@[from]@, self.clients.len() as int));
        assert(self.distances@[from]@[to] <= LIMIT);
        assert(client_ok(self.clients@[to], to));
    }

    /// A client that is reached in time is reached before `LATEST_ARRIVAL`.
    pub proof fn lemma_feasible_bound(&self, from: int, to: int, t: int)
        requires
            self.wf(),
            0 <= from < self.clients.len(),
            0 <= to < self.clients.len(),
            0 <= t,
            self.feasible(from, to, t),
        ensures
            t + self.dist(from, to) < LATEST_ARRIVAL,
    {
        let c = self.clients@[to];
        assert(client_ok(c, to));
        let w = c.latest - c.earliest;
        let dev = self.allowed_deviation as int;
        assert(dev * w <= LIMIT * LIMIT) by (nonlinear_arith)
            requires
                0 <= dev <= LIMIT,
                0 <= w <= LIMIT,
        ;
        assert(LIMIT == 0x4000_0000 && SCALE == 1000 && LATEST_ARRIVAL == 0x8_0000_0000_0000);
        assert((t + self.dist(from, to)) * 1000 < LIMIT * 1000 + LIMIT * LIMIT);
    }

    /// What holds of the stops `base` extended by `k` stops: the new stops
    /// are at the given clients, `base` stays in front, every new stop is
    /// timed from the stop before it, and none is left later than two
    /// limits per new stop after the vehicle set out.
    pub proof fn lemma_extended(
        &self,
        base: Seq<RouteEntryClient>,
        from: int,
        t: Time,
        ids: Seq<usize>,
        k: nat,
    )
        requires
            self.wf(),
            self.stops_known(base),
            0 <= from < self.clients.len(),
            forall|m: int| 0 <= m < ids.len() ==> (#[trigger] ids[m]) < self.clients.len(),
            k <= ids.len(),
            Self::start_time(base, t) + 2 * LIMIT * k <= u64::MAX,
        ensures
            self.extended(base, from, t, ids, k).len() == base.len() + k,
            self.extended(base, from, t, ids, k).take(base.len() as int) == base,
            self.stops_known(self.extended(base, from, t, ids, k)),
            forall|m: int|
                base.len() <= m < base.len() + k ==> {
                    &&& (#[trigger] self.extended(base, from, t, ids, k)[m]).client_id == ids[m
                        - base.len()]
                    &&& self.extended(base, from, t, ids, k)[m].leave_time <= Self::start_time(
                        base,
                        t,
                    ) + 2 * LIMIT * (m - base.len() + 1)
                    &&& self.extended(base, from, t, ids, k)[m].leave_time >= Self::start_time(
                        base,
                        t,
                    )
                    &&& self.extended(base, from, t, ids, k)[m] == self.next_stop(
                        self.extended(base, from, t, ids, k).take(m),
                        from,
                        t,
                        ids[m - base.len()],
                    )
                },
        decreases k,
    {
        reveal(ProblemInstance::extended);
        let e = self.extended(base, from, t, ids, k);
        if k == 0 {
            assert(e.take(base.len() as int) =~= base);
        } else {
            assert(2 * LIMIT * (k - 1) + 2 * LIMIT == 2 * LIMIT * k) by (nonlinear_arith);
            assert(0 <= 2 * LIMIT * (k - 1)) by (nonlinear_arith)
                requires
                    k >= 1,
            ;
            self.lemma_extended(base, from, t, ids, (k - 1) as nat);
            let prev = self.extended(base, from, t, ids, (k - 1) as nat);
            let id = ids[k - 1];
            let start = Self::start_time(base, t);
            assert(prev.take(base.len() as int) == base);
            if prev.len() == 0 {
                self.lemma_stop_bounds(from, id as int, t);
            } else {
                let last = prev.last();
                if k == 1 {
                    assert(prev =~= base);
                } else {
                    assert(last == prev[base.len() + k - 2]);
                    assert(2 * LIMIT * ((base.len() + k - 2) - base.len() + 1) == 2 * LIMIT * (k
                        - 1)) by (nonlinear_arith);
                }
                assert(last.leave_time <= start + 2 * LIMIT * (k - 1));
                self.lemma_stop_bounds(last.client_id as int, id as int, last.leave_time);
            }
            assert(e.take(base.len() as int) =~= prev.take(base.len() as int));
            assert forall|m: int| base.len() <= m < base.len() + k implies {
                &&& (#[trigger] e[m]).client_id == ids[m - base.len()]
                &&& e[m].leave_time <= start + 2 * LIMIT * (m - base.len() + 1)
                &&& e[m].leave_time >= start
                &&& e[m] == self.next_stop(e.take(m), from, t, ids[m - base.len()])
            } by {
                if m < base.len() + k - 1 {
                    assert(e[m] == prev[m]);
                    assert(e.take(m) =~= prev.take(m));
                } else {
                    assert(e.take(m) =~= prev);
                    assert(2 * LIMIT * (m - base.len() + 1) == 2 * LIMIT * k) by (nonlinear_arith)
                        requires
                            m == base.len() + k - 1,
                    ;
                }
            }
        }
    }

    /// Stop `m` as it is timed from the stop before it; the first stop, from
    /// client `from` left at `t`.
    pub open spec fn stop_after(&self, e: Seq<RouteEntryClient>, m: int, from: int, t: Time) -> RouteEntryClient {
        if m == 0 {
            self.stop_at(self.dist(from, e[0].client_id as int), e[0].client_id as int, t)
        } else {
            self.stop_at(
                self.dist(e[m - 1].client_id as int, e[m].client_id as int),
                e[m].client_id as int,
                e[m - 1].leave_time,
            )
        }
    }

    /// Stop `m` is timed from the stop before it; the first stop, from
    /// client `from` left at `t`.
    pub open spec fn timed_at(&self, e: Seq<RouteEntryClient>, m: int, from: int, t: Time) -> bool {
        e[m] == self.stop_after(e, m, from, t)
    }

    /// The stops `base` extended by `k` stops, stop by stop: `base` stays
    /// in front, and every new stop is at its client and timed from the
    /// stop before it.
    pub proof fn lemma_extended_chain(
        &self,
        base: Seq<RouteEntryClient>,
        from: int,
        t: Time,
        ids: Seq<usize>,
        k: nat,
    )
        requires
            self.wf(),
            self.stops_known(base),
            0 <= from < self.clients.len(),
            forall|m: int| 0 <= m < ids.len() ==> (#[trigger] ids[m]) < self.clients.len(),
            k <= ids.len(),
            Self::start_time(base, t) + 2 * LIMIT * k <= u64::MAX,
        ensures
            self.extended(base, from, t, ids, k).len() == base.len() + k,
            self.stops_known(self.extended(base, from, t, ids, k)),
            forall|m: int|
                0 <= m < base.len() ==> (#[trigger] self.extended(base, from, t, ids, k)[m])
                    == base[m],
            forall|m: int|
                base.len() <= m < base.len() + k ==> {
                    &&& (#[trigger] self.extended(base, from, t, ids, k)[m]).client_id == ids[m
                        - base.len()]
                    &&& self.extended(base, from, t, ids, k)[m].leave_time <= Self::start_time(
                        base,
                        t,
                    ) + 2 * LIMIT * (m - base.len() + 1)
                },
            forall|m: int|
                base.len() <= m < base.len() + k ==> #[trigger] self.timed_at(
                    self.extended(base, from, t, ids, k),
                    m,
                    from,
                    t,
                ),
    {
        let e = self.extended(base, from, t, ids, k);
        self.lemma_extended(base, from, t, ids, k);
        assert forall|m: int| 0 <= m < base.len() implies (#[trigger] e[m]) == base[m] by {
            assert(e.take(base.len() as int)[m] == e[m]);
        }
        assert forall|m: int| base.len() <= m < base.len() + k implies #[trigger] self.timed_at(
            e,
            m,
            from,
            t,
        ) by {
            assert(e[m] == self.next_stop(e.take(m), from, t, ids[m - base.len()]));
            if m > 0 {
                assert(e.take(m).last() == e[m - 1]);
            }
        }
    }

    /// Only the first `k` stops matter to their total demand and travel
    /// time.
    pub proof fn lemma_totals_agree(
        &self,
        a: Seq<RouteEntryClient>,
        b: Seq<RouteEntryClient>,
        k: nat,
    )
        requires
            k <= a.len(),
            k <= b.len(),
            forall|m: int| 0 <= m < k ==> a[m] == b[m],
        ensures
            self.load(a, k) == self.load(b, k),
            self.travel_time(a, k) == self.travel_time(b, k),
        decreases k,
    {
        if k > 0 {
            self.lemma_totals_agree(a, b, (k - 1) as nat);
        }
    }

    /// Every stop from `start` on, but the very first of the route, is
    /// reached in time from the stop before it.
    pub open spec fn on_time_from(&self, clients: Seq<RouteEntryClient>, start: int) -> bool {
        forall|m: int|
            start <= m < clients.len() && 1 <= m ==> #[trigger] self.feasible(
                clients[m - 1].client_id as int,
                clients[m].client_id as int,
                clients[m - 1].leave_time as int,
            )
    }

    /// The route with its time, costs and load derived anew can be
    /// handled, if its stops can.
    pub proof fn lemma_costed_ok(&self, r: RouteModel)
        requires
            self.wf(),
            r.vehicle_id < self.vehicles.len(),
            r.clients.len() <= MAX_STOPS,
            self.stops_known(r.clients),
            forall|k: int| 0 <= k < r.clients.len() ==> (#[trigger] r.clients[k]).leave_time <= HORIZON,
        ensures
            self.route_ok(self.costed(r)),
            self.costed(r).route_time == self.travel_time(r.clients, r.clients.len()),
            self.costed(r).route_variable_cost == self.travel_time(r.clients, r.clients.len())
                * self.vehicles@[r.vehicle_id as int].variable_cost,
            self.costed(r).demand == self.load(r.clients, r.clients.len()),
    {
        let n = r.clients.len();
        self.lemma_totals_bounded(r.clients, n);
        let t = self.travel_time(r.clients, n);
        let v = self.vehicles@[r.vehicle_id as int];
        assert(vehicle_ok(v, r.vehicle_id as int));
        let rate = v.variable_cost as int;
        assert(0 <= t * rate <= (MAX_STOPS * LIMIT) * LIMIT) by (nonlinear_arith)
            requires
                0 <= t <= n * LIMIT,
                n <= MAX_STOPS,
                0 <= rate <= LIMIT,
        ;
        assert(n * LIMIT <= MAX_STOPS * LIMIT) by (nonlinear_arith)
            requires
                n <= MAX_STOPS,
        ;
    }
}

impl RouteEntry {
    /// The route can be handled: see `ProblemInstance::route_ok`.
    pub open spec fn wf(&self, problem: &ProblemInstance) -> bool {
        problem.route_ok(self@)
    }

    /// Whether the route can be handled.
    pub fn is_valid(&self, problem: &ProblemInstance) -> (r: bool)
        ensures
            r == self.wf(problem),
    {
        if self.vehicle_id >= problem.vehicles.len() || self.clients.len() > MAX_STOPS
            || self.route_fixed_cost > LIMIT as u128 || self.route_variable_cost > VARIABLE_CAP
            || self.route_time > TIME_CAP {
            return false;
        }
        let mut k: usize = 0;
        while k < self.clients.len()
            invariant
                k <= self.clients.len(),
                forall|m: int|
                    0 <= m < k ==> (#[trigger] self.clients@[m]).client_id < problem.clients.len()
                        && self.clients@[m].leave_time <= HORIZON,
            decreases self.clients.len() - k,
        {
            if self.clients[k].client_id >= problem.clients.len() || self.clients[k].leave_time
                > HORIZON {
                return false;
            }
            k += 1;
        }
        true
    }
}

} // verus!
