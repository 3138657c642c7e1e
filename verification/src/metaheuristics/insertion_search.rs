use vstd::prelude::*;
use super::local_search::{
    before, fails_at, no_better_at, picked, yields_at, LocalSearch, LocalSearchNotFound,
};
use super::opt2_search::{chosen, pair_cost, PairStep};
use super::schedule::{LATEST_ARRIVAL, VARIABLE_CAP};
use crate::types::others::{
    Cost, RouteEntry, RouteEntryClient, RouteModel, HORIZON, LIMIT, MAX_STOPS,
};
use crate::types::problem_instance::{client_ok, row_ok, vehicle_ok, ProblemInstance};

verus! {

/// The answer where the clients cannot be inserted.
struct InsertionError;

/// The clients of `ids` that are not among `moved`, in order.
pub open spec fn staying(ids: Seq<usize>, moved: Seq<usize>) -> Seq<usize> {
    ids.filter(|id: usize| !moved.contains(id))
}

impl ProblemInstance {
    /// The clients that the first route visits after the insertion, from
    /// its stop `i` on: the `len` clients moved from position `j` of the
    /// second route, then what followed stop `i`.
    pub open spec fn grown_ids(r1: RouteModel, r2: RouteModel, i: int, j: int, len: int) -> Seq<
        usize,
    > {
        r2.ids().subrange(j, j + len) + r1.ids().skip(i + 1)
    }

    /// The stops of the first route after the insertion: its stops up to
    /// `i` as they were, then the clients moved and what followed, each
    /// timed from the stop before it.
    pub open spec fn grown(&self, r1: RouteModel, r2: RouteModel, i: int, j: int, len: int) -> Seq<
        RouteEntryClient,
    > {
        self.extended(
            r1.clients.take(i + 1),
            self.source as int,
            self.clients@[self.source as int].earliest,
            Self::grown_ids(r1, r2, i, j, len),
            Self::grown_ids(r1, r2, i, j, len).len(),
        )
    }

    /// The clients that the second route still visits, among its first `k`
    /// stops, when the `len` clients from position `j` on are moved away:
    /// every stop at one of these clients is dropped.
    pub open spec fn kept_ids(r2: RouteModel, j: int, len: int, k: int) -> Seq<usize> {
        staying(r2.ids().take(k), r2.ids().subrange(j, j + len))
    }

    /// The stops of the second route after the insertion: the clients it
    /// still visits, each timed from the stop before it, and the first
    /// from the first stop of the route as it was.
    pub open spec fn shrunk(&self, r2: RouteModel, j: int, len: int) -> Seq<RouteEntryClient> {
        self.extended(
            Seq::empty(),
            r2.clients[0].client_id as int,
            r2.clients[0].leave_time,
            Self::kept_ids(r2, j, len, r2.clients.len() as int),
            Self::kept_ids(r2, j, len, r2.clients.len() as int).len(),
        )
    }

    /// The two routes after the `len` clients from position `j` of the
    /// second are moved behind stop `i` of the first, with time, costs and
    /// load derived anew; nothing if a stop of the first route from the
    /// insertion on is not reached in time, if its vehicle cannot carry the
    /// load, or if a stop of the second route is left after the horizon.
    pub open spec fn inserted(&self, r1: RouteModel, r2: RouteModel, i: int, j: int, len: int) -> Option<
        (RouteModel, RouteModel),
    > {
        let stops1 = self.grown(r1, r2, i, j, len);
        let stops2 = self.shrunk(r2, j, len);
        if self.on_time_from(stops1, i + 1) && (stops1.len() > i + 1 ==> self.load(
            stops1,
            stops1.len(),
        ) <= self.vehicles@[r1.vehicle_id as int].capacity) && (forall|m: int|
            0 <= m < stops2.len() ==> (#[trigger] stops2[m]).leave_time <= HORIZON) {
            Some(
                (
                    self.costed(RouteModel { clients: stops1, ..r1 }),
                    self.costed(RouteModel { clients: stops2, ..r2 }),
                ),
            )
        } else {
            None
        }
    }

    /// What the insertion answers for the positions `(i, j)`: nothing if
    /// one of the two stops is the depot, if fewer than `len` stops follow
    /// position `j`, if the first route would get too long, if the clients
    /// cannot be inserted, or if the two new routes together do not cost
    /// less than the two old ones; else the two new routes.
    pub open spec fn insertion_step(
        &self,
        r1: RouteModel,
        r2: RouteModel,
        len: int,
        i: int,
        j: int,
    ) -> Option<(RouteModel, RouteModel)> {
        if r1.clients[i].client_id == self.source || r2.clients[j].client_id == self.source
            || r2.clients.len() - j - 1 < len {
            None
        } else if r1.clients.len() + len > MAX_STOPS {
            None
        } else {
            match self.inserted(r1, r2, i, j, len) {
                None => None,
                Some(new) => if pair_cost(new) < pair_cost((r1, r2)) {
                    Some(new)
                } else {
                    None
                },
            }
        }
    }

    /// What the insertion answers, for every pair of positions.
    pub open spec fn insertion_steps(&self, r1: RouteModel, r2: RouteModel, len: int) -> PairStep {
        |a: int, b: int| self.insertion_step(r1, r2, len, a, b)
    }
}

/// The stop at the client of `to` for a vehicle that comes from the stop
/// `from`, if it is reached in time and the load, which grows by its
/// demand, stays within the capacity.
fn route1_append(
    problem: &ProblemInstance,
    from: &RouteEntryClient,
    to: &RouteEntryClient,
    new_route1_demand: &mut u64,
    capacity: u64,
) -> (r: Option<RouteEntryClient>)
    requires
        problem.wf(),
        from.client_id < problem.clients.len(),
        to.client_id < problem.clients.len(),
        from.leave_time <= HORIZON,
        *old(new_route1_demand) + LIMIT <= u64::MAX,
    ensures
        r is Some <==> problem.feasible(
            from.client_id as int,
            to.client_id as int,
            from.leave_time as int,
        ) && *old(new_route1_demand) + problem.clients@[to.client_id as int].demand <= capacity,
        r is Some ==> r.unwrap() == problem.stop_at(
            problem.dist(from.client_id as int, to.client_id as int),
            to.client_id as int,
            from.leave_time,
        ) && *final(new_route1_demand) == *old(new_route1_demand)
            + problem.clients@[to.client_id as int].demand && r.unwrap().leave_time <= HORIZON,
{
    if !problem.is_move_feasible(from.client_id, to.client_id, from.leave_time) {
        return None;
    }
    proof {
        assert(LIMIT == 0x4000_0000 && HORIZON == 0x1000_0000_0000_0000 && LATEST_ARRIVAL
            == 0x8_0000_0000_0000);
        assert(client_ok(problem.clients@[to.client_id as int], to.client_id as int));
        assert(row_ok(problem.distances@[from.client_id as int]@, problem.clients.len() as int));
        problem.lemma_feasible_bound(
            from.client_id as int,
            to.client_id as int,
            from.leave_time as int,
        );
    }
    let client = &problem.clients[to.client_id];
    let distance = problem.distances[from.client_id][to.client_id];

    *new_route1_demand = *new_route1_demand + client.demand;

    if *new_route1_demand > capacity {
        return None;
    }
    let ret = problem.create_route_entry_client(distance, to.client_id, from.leave_time);

    Some(ret)
}

/// Whether the stops `first..first + count` of the route hold the client.
fn is_moved(route: &RouteEntry, first: usize, count: usize, client_id: usize) -> (r: bool)
    requires
        first + count <= route.clients.len(),
    ensures
        r == route@.ids().subrange(first as int, first + count).contains(client_id),
{
    let ghost moved = route@.ids().subrange(first as int, first + count);
    let mut k: usize = 0;
    while k < count
        invariant
            k <= count,
            first + count <= route.clients.len(),
            moved == route@.ids().subrange(first as int, first + count),
            forall|m: int| 0 <= m < k ==> moved[m] != client_id,
        decreases count - k,
    {
        if route.clients[first + k].client_id == client_id {
            assert(moved[k as int] == client_id);
            return true;
        }
        k += 1;
    }
    false
}

/// The clients kept among the first `k` stops are the first of those kept
/// among all stops, and stop `k`, if it is kept, is the next of them.
proof fn lemma_kept_prefix(r2: RouteModel, j: int, len: int, k: int)
    requires
        0 <= k <= r2.clients.len(),
    ensures
        ProblemInstance::kept_ids(r2, j, len, k).len() <= k,
        ProblemInstance::kept_ids(r2, j, len, k) =~= ProblemInstance::kept_ids(
            r2,
            j,
            len,
            r2.clients.len() as int,
        ).take(ProblemInstance::kept_ids(r2, j, len, k).len() as int),
        ProblemInstance::kept_ids(r2, j, len, k).len() <= ProblemInstance::kept_ids(
            r2,
            j,
            len,
            r2.clients.len() as int,
        ).len(),
        k < r2.clients.len() ==> ProblemInstance::kept_ids(r2, j, len, k + 1) == (if r2.ids().subrange(
            j,
            j + len,
        ).contains(r2.ids()[k]) {
            ProblemInstance::kept_ids(r2, j, len, k)
        } else {
            ProblemInstance::kept_ids(r2, j, len, k).push(r2.ids()[k])
        }),
    decreases r2.clients.len() - k,
{
    let pred = |id: usize| !r2.ids().subrange(j, j + len).contains(id);
    let all = ProblemInstance::kept_ids(r2, j, len, r2.clients.len() as int);
    let here = ProblemInstance::kept_ids(r2, j, len, k);
    r2.ids().take(k).lemma_filter_len(pred);
    if k < r2.clients.len() {
        lemma_kept_prefix(r2, j, len, k + 1);
        let next = ProblemInstance::kept_ids(r2, j, len, k + 1);
        assert(r2.ids().take(k + 1) =~= r2.ids().take(k).push(r2.ids()[k]));
        r2.ids().take(k).lemma_filter_push(r2.ids()[k], pred);
        assert(next == if pred(r2.ids()[k]) {
            here.push(r2.ids()[k])
        } else {
            here
        });
        assert(next =~= all.take(next.len() as int));
        assert forall|m: int| 0 <= m < here.len() implies here[m] == all[m] by {
            assert(here[m] == next[m]);
            assert(next[m] == all.take(next.len() as int)[m]);
        }
    }
}

/// The first route with the stops `first..first + count` of the second
/// moved behind its stop `insert_after`, before its costs are derived;
/// nothing if a stop is not reached in time or the load gets too large.
fn grow_route(
    problem: &ProblemInstance,
    route1: &RouteEntry,
    route2: &RouteEntry,
    insert_after: usize,
    first: usize,
    count: usize,
) -> (r: Option<RouteEntry>)
    requires
        problem.wf(),
        route1.wf(problem),
        route2.wf(problem),
        insert_after < route1.clients.len(),
        first + count <= route2.clients.len(),
        route1.clients.len() + count <= MAX_STOPS,
    ensures
        r is Some <==> problem.on_time_from(
            problem.grown(route1@, route2@, insert_after as int, first as int, count as int),
            insert_after + 1,
        ) && (problem.grown(
            route1@,
            route2@,
            insert_after as int,
            first as int,
            count as int,
        ).len() > insert_after + 1 ==> problem.load(
            problem.grown(route1@, route2@, insert_after as int, first as int, count as int),
            problem.grown(route1@, route2@, insert_after as int, first as int, count as int).len(),
        ) <= problem.vehicles@[route1.vehicle_id as int].capacity),
        r is Some ==> r.unwrap()@ == (RouteModel {
            clients: problem.grown(
                route1@,
                route2@,
                insert_after as int,
                first as int,
                count as int,
            ),
            ..route1@
        }) && r.unwrap().clients.len() <= MAX_STOPS && problem.stops_known(r.unwrap().clients@)
            && forall|m: int|
            0 <= m < r.unwrap().clients.len() ==> (#[trigger] r.unwrap().clients@[m]).leave_time
                <= HORIZON,
{
    let mut new_route1 = route1.clone();
    let mut new_route1_demand: u64 = 0;
    assert(vehicle_ok(problem.vehicles@[route1.vehicle_id as int], route1.vehicle_id as int));
    let capacity = problem.vehicles[new_route1.vehicle_id].capacity;

    let ghost r1 = route1@;
    let ghost r2 = route2@;
    let ghost i = insert_after as int;
    let ghost j = first as int;
    let ghost len = count as int;
    let ghost base = r1.clients.take(i + 1);
    let ghost ids = ProblemInstance::grown_ids(r1, r2, i, j, len);
    let ghost opens = problem.clients@[problem.source as int].earliest;
    let ghost src = problem.source as int;
    let ghost stops1 = problem.grown(r1, r2, i, j, len);

    new_route1.clients.clear();
    proof {
        assert(LIMIT == 0x4000_0000 && HORIZON == 0x1000_0000_0000_0000 && MAX_STOPS == 0x1_0000);
        assert(client_ok(problem.clients@[src], src));
    }

    /* the stops up to the insertion stay as they are */
    let mut k: usize = 0;
    while k <= insert_after
        invariant
            problem.wf(),
            route1.wf(problem),
            r1 == route1@,
            insert_after < route1.clients.len(),
            k <= insert_after + 1,
            new_route1.clients@ == r1.clients.take(k as int),
            new_route1_demand == problem.load(r1.clients, k as nat),
            new_route1.vehicle_id == r1.vehicle_id,
            new_route1.route_time == r1.route_time,
            new_route1.route_fixed_cost == r1.route_fixed_cost,
            new_route1.route_variable_cost == r1.route_variable_cost,
            new_route1.demand == r1.demand,
        decreases insert_after + 1 - k,
    {
        let route_client = route1.clients[k];
        proof {
            problem.lemma_totals_bounded(r1.clients, (k + 1) as nat);
            assert(r1.clients[k as int].client_id < problem.clients.len());
            assert((k + 1) * LIMIT <= MAX_STOPS * LIMIT) by (nonlinear_arith)
                requires
                    k + 1 <= MAX_STOPS,
            ;
        }
        new_route1.clients.push(route_client);
        new_route1_demand = new_route1_demand + problem.clients[route_client.client_id].demand;
        k += 1;
        proof {
            assert(new_route1.clients@ =~= r1.clients.take(k as int));
        }
    }

    proof {
        assert forall|m: int| 0 <= m < ids.len() implies (#[trigger] ids[m])
            < problem.clients.len() by {
            if m < len {
                assert(ids[m] == r2.clients[j + m].client_id);
            } else {
                assert(ids[m] == r1.clients[i + 1 + m - len].client_id);
            }
        }
        assert(problem.stops_known(base));
        assert(2 * LIMIT * ids.len() <= 2 * LIMIT * MAX_STOPS) by (nonlinear_arith)
            requires
                ids.len() <= MAX_STOPS,
        ;
        assert(base.last() == r1.clients[i]);
        problem.lemma_extended_chain(base, src, opens, ids, ids.len());
        problem.lemma_totals_agree(r1.clients, base, (i + 1) as nat);
        problem.lemma_totals_agree(base, stops1, (i + 1) as nat);
        problem.lemma_totals_bounded(stops1, (i + 1) as nat);
        assert(new_route1.clients@ =~= stops1.take(i + 1));
    }

    /* then come the clients that move, and then what followed */
    let total = count + (route1.clients.len() - insert_after - 1);
    let mut done: usize = 0;
    while done < total
        invariant
            problem.wf(),
            insert_after < route1.clients.len(),
            first + count <= route2.clients.len(),
            route1.clients.len() + count <= MAX_STOPS,
            i == insert_after,
            total == count + (route1.clients.len() - insert_after - 1),
            done <= total,
            r1 == route1@,
            r2 == route2@,
            j == first,
            len == count,
            stops1 == problem.grown(r1, r2, i, j, len),
            capacity == problem.vehicles@[route1.vehicle_id as int].capacity,
            ids == ProblemInstance::grown_ids(r1, r2, i, j, len),
            ids.len() == total,
            stops1.len() == i + 1 + total,
            problem.stops_known(stops1),
            forall|m: int|
                i + 1 <= m < stops1.len() ==> #[trigger] problem.timed_at(stops1, m, src, opens),
            forall|m: int|
                i + 1 <= m < stops1.len() ==> (#[trigger] stops1[m]).client_id == ids[m - (i + 1)],
            new_route1.clients@ == stops1.take(i + 1 + done),
            new_route1.clients@.last().leave_time <= HORIZON,
            forall|m: int|
                0 <= m < new_route1.clients.len() ==> (#[trigger] new_route1.clients@[m]).leave_time
                    <= HORIZON,
            new_route1_demand == problem.load(stops1, (i + 1 + done) as nat),
            new_route1_demand <= capacity || done == 0,
            new_route1_demand <= (i + 1 + done) * LIMIT,
            forall|m: int|
                i + 1 <= m < i + 1 + done ==> #[trigger] problem.feasible(
                    stops1[m - 1].client_id as int,
                    stops1[m].client_id as int,
                    stops1[m - 1].leave_time as int,
                ),
            new_route1.vehicle_id == route1.vehicle_id,
            new_route1.route_time == route1.route_time,
            new_route1.route_fixed_cost == route1.route_fixed_cost,
            new_route1.route_variable_cost == route1.route_variable_cost,
            new_route1.demand == route1.demand,
        decreases total - done,
    {
        let route_client = if done < count {
            route2.clients[first + done]
        } else {
            route1.clients[insert_after + 1 + (done - count)]
        };
        let ghost at = i + 1 + done;
        proof {
            assert(route_client.client_id == ids[done as int]);
            assert(problem.timed_at(stops1, at, src, opens));
            assert(route_client.client_id == stops1[at].client_id);
            assert(stops1[at - 1].client_id < problem.clients.len());
            assert(stops1[at].client_id < problem.clients.len());
            assert(new_route1.clients@.last() == stops1[at - 1]);
            assert((i + 1 + done) * LIMIT + LIMIT <= (MAX_STOPS + 1) * LIMIT) by (nonlinear_arith)
                requires
                    i + 1 + done <= MAX_STOPS,
            ;
            assert((i + 1 + done) * LIMIT + LIMIT == (i + 1 + (done + 1)) * LIMIT)
                by (nonlinear_arith);
            problem.lemma_load_grows(stops1, (at + 1) as nat, stops1.len());
        }
        let current_client = new_route1.clients[new_route1.clients.len() - 1];
        match route1_append(
            problem,
            &current_client,
            &route_client,
            &mut new_route1_demand,
            capacity,
        ) {
            Some(new_route_client) => {
                new_route1.clients.push(new_route_client);
                proof {
                    assert(new_route1.clients@ =~= stops1.take(at + 1));
                }
            },
            None => {
                proof {
                    if problem.feasible(
                        stops1[at - 1].client_id as int,
                        stops1[at].client_id as int,
                        stops1[at - 1].leave_time as int,
                    ) {
                        assert(problem.load(stops1, (at + 1) as nat) > capacity);
                    } else {
                        assert(!problem.on_time_from(stops1, i + 1));
                    }
                }
                return None;
            },
        }
        done += 1;
    }
    proof {
        assert(new_route1.clients@ =~= stops1);
        assert(problem.on_time_from(stops1, i + 1));
    }
    Some(new_route1)
}

/// The second route without the clients of its stops
/// `first..first + count`, timed anew, before its costs are derived;
/// nothing if a stop would be left after the horizon.
fn shrink_route(problem: &ProblemInstance, route2: &RouteEntry, first: usize, count: usize) -> (r:
    Option<RouteEntry>)
    requires
        problem.wf(),
        route2.wf(problem),
        first + count <= route2.clients.len(),
        route2.clients.len() > 0,
    ensures
        r is Some <==> (forall|m: int|
            0 <= m < problem.shrunk(route2@, first as int, count as int).len() ==> (
            #[trigger] problem.shrunk(route2@, first as int, count as int)[m]).leave_time
                <= HORIZON),
        r is Some ==> r.unwrap()@ == (RouteModel {
            clients: problem.shrunk(route2@, first as int, count as int),
            ..route2@
        }) && r.unwrap().clients.len() <= MAX_STOPS && problem.stops_known(r.unwrap().clients@),
{
    let mut new_route2 = route2.clone();
    new_route2.clients.clear();

    let ghost r2 = route2@;
    let ghost j = first as int;
    let ghost len = count as int;
    let ghost all = ProblemInstance::kept_ids(r2, j, len, r2.clients.len() as int);
    let ghost stops2 = problem.shrunk(r2, j, len);
    let ghost pred = |id: usize| !r2.ids().subrange(j, j + len).contains(id);

    let client_from = &route2.clients[0];
    let mut client_from_id = client_from.client_id;
    let mut current_time = client_from.leave_time;
    let ghost start_id = client_from.client_id as int;
    let ghost start_time = client_from.leave_time;
    proof {
        assert(LIMIT == 0x4000_0000 && HORIZON == 0x1000_0000_0000_0000 && MAX_STOPS == 0x1_0000);
        assert(r2.clients[0].client_id < problem.clients.len());
        assert(r2.clients[0].leave_time <= HORIZON);
        lemma_kept_prefix(r2, j, len, r2.clients.len() as int);
        lemma_kept_prefix(r2, j, len, 0);
        assert forall|m: int| 0 <= m < all.len() implies (#[trigger] all[m])
            < problem.clients.len() by {
            assert(r2.ids().take(r2.clients.len() as int) =~= r2.ids());
            r2.ids().lemma_filter_contains_rev(pred, all[m]);
            let x = choose|x: int| 0 <= x < r2.ids().len() && r2.ids()[x] == all[m];
            assert(r2.clients[x].client_id < problem.clients.len());
        }
        assert(2 * LIMIT * all.len() <= 2 * LIMIT * MAX_STOPS) by (nonlinear_arith)
            requires
                all.len() <= MAX_STOPS,
        ;
        problem.lemma_extended_chain(Seq::empty(), start_id, start_time, all, all.len());
        assert(new_route2.clients@ =~= stops2.take(0));
    }
    let mut k: usize = 0;
    while k < route2.clients.len()
        invariant
            problem.wf(),
            route2.wf(problem),
            r2 == route2@,
            j == first,
            len == count,
            first + count <= route2.clients.len(),
            k <= route2.clients.len(),
            start_id < problem.clients.len(),
            start_time <= HORIZON,
            all == ProblemInstance::kept_ids(r2, j, len, r2.clients.len() as int),
            stops2 == problem.shrunk(r2, j, len),
            stops2.len() == all.len(),
            all.len() <= r2.clients.len(),
            problem.stops_known(stops2),
            forall|m: int|
                0 <= m < stops2.len() ==> #[trigger] problem.timed_at(
                    stops2,
                    m,
                    start_id,
                    start_time,
                ),
            forall|m: int| 0 <= m < stops2.len() ==> (#[trigger] stops2[m]).client_id == all[m],
            new_route2.clients.len() == ProblemInstance::kept_ids(r2, j, len, k as int).len(),
            new_route2.clients.len() <= all.len(),
            new_route2.clients@ == stops2.take(new_route2.clients.len() as int),
            forall|m: int|
                0 <= m < new_route2.clients.len() ==> (#[trigger] stops2[m]).leave_time <= HORIZON,
            client_from_id < problem.clients.len(),
            current_time <= HORIZON,
            new_route2.clients.len() == 0 ==> client_from_id == start_id && current_time
                == start_time,
            new_route2.clients.len() > 0 ==> client_from_id
                == new_route2.clients@.last().client_id && current_time
                == new_route2.clients@.last().leave_time,
            new_route2.vehicle_id == r2.vehicle_id,
            new_route2.route_time == r2.route_time,
            new_route2.route_fixed_cost == r2.route_fixed_cost,
            new_route2.route_variable_cost == r2.route_variable_cost,
            new_route2.demand == r2.demand,
        decreases route2.clients.len() - k,
    {
        let route_client = route2.clients[k];
        let ghost c = new_route2.clients.len() as int;
        proof {
            lemma_kept_prefix(r2, j, len, k as int);
            lemma_kept_prefix(r2, j, len, k + 1);
            assert(r2.clients[k as int].client_id < problem.clients.len());
            assert(r2.ids()[k as int] == route_client.client_id);
        }
        if !is_moved(route2, first, count, route_client.client_id) {
            proof {
                let next = ProblemInstance::kept_ids(r2, j, len, k + 1);
                assert(next.len() == c + 1);
                assert(next[c] == route_client.client_id);
                assert(all.take(next.len() as int)[c] == all[c]);
                assert(problem.timed_at(stops2, c, start_id, start_time));
                if c > 0 {
                    assert(new_route2.clients@.last() == stops2[c - 1]);
                }
                problem.lemma_stop_bounds(
                    client_from_id as int,
                    route_client.client_id as int,
                    current_time,
                );
                assert(row_ok(
                    problem.distances@[client_from_id as int]@,
                    problem.clients.len() as int,
                ));
            }
            let arc_time = problem.distances[client_from_id][route_client.client_id];
            let new_client = problem.create_route_entry_client(
                arc_time,
                route_client.client_id,
                current_time,
            );
            assert(new_client == stops2[c]);
            if new_client.leave_time > HORIZON {
                assert(stops2[c].leave_time > HORIZON);
                return None;
            }
            current_time = new_client.leave_time;
            client_from_id = new_client.client_id;
            new_route2.clients.push(new_client);
            proof {
                assert(new_route2.clients@ =~= stops2.take(c + 1));
            }
        }
        k += 1;
    }
    proof {
        assert(new_route2.clients@ =~= stops2);
    }
    Some(new_route2)
}

/// Moves the stops `first..first + count` of the second route behind the
/// stop `insert_after` of the first.
fn try_insert_nodes(
    problem: &ProblemInstance,
    route1: &RouteEntry,
    route2: &RouteEntry,
    insert_after: usize,
    first: usize,
    count: usize,
) -> (r: Result<(RouteEntry, RouteEntry), InsertionError>)
    requires
        problem.wf(),
        route1.wf(problem),
        route2.wf(problem),
        insert_after < route1.clients.len(),
        first + count <= route2.clients.len(),
        route2.clients.len() > 0,
        route1.clients.len() + count <= MAX_STOPS,
    ensures
        match r {
            Ok(new) => problem.inserted(
                route1@,
                route2@,
                insert_after as int,
                first as int,
                count as int,
            ) == Some((new.0@, new.1@)) && new.0.wf(problem) && new.1.wf(problem),
            Err(_) => problem.inserted(
                route1@,
                route2@,
                insert_after as int,
                first as int,
                count as int,
            ) is None,
        },
{
    let mut new_route1 = match grow_route(problem, route1, route2, insert_after, first, count) {
        Some(route) => route,
        None => {
            return Err(InsertionError);
        },
    };
    let mut new_route2 = match shrink_route(problem, route2, first, count) {
        Some(route) => route,
        None => {
            return Err(InsertionError);
        },
    };

    proof {
        problem.lemma_costed_ok(new_route1@);
        problem.lemma_costed_ok(new_route2@);
    }
    problem.compute_route_costs(&mut new_route1);
    problem.compute_route_costs(&mut new_route2);

    Ok((new_route1, new_route2))
}

/// Moves clients from one route to another: for every stop of the first
/// route and every stop of the second, neither of them the depot, it
/// tries to move the `sequence_length` stops that start at the stop of the
/// second route behind the stop of the first. Returns the two new routes
/// of the first move that can be made and lowers the cost of the two
/// routes, with `first_improvement`, or of the first among those that
/// lower it most; nothing if there is none.
pub fn insertion_search(
    problem: &ProblemInstance,
    route1: &RouteEntry,
    route2: &RouteEntry,
    sequence_length: usize,
    first_improvement: bool,
) -> (r: Option<(RouteEntry, RouteEntry)>)
    requires
        problem.wf(),
        route1.wf(problem),
        route2.wf(problem),
    ensures
        match r {
            None => forall|i: int, j: int|
                0 <= i < route1.clients.len() && 0 <= j < route2.clients.len() ==> (
                #[trigger] problem.insertion_step(route1@, route2@, sequence_length as int, i, j))
                    is None,
            Some(new) => new.0.wf(problem) && new.1.wf(problem) && exists|i: int, j: int| #[trigger]
                chosen(
                    problem.insertion_steps(route1@, route2@, sequence_length as int),
                    route1.clients.len() as int,
                    route2.clients.len() as int,
                    first_improvement,
                    (new.0@, new.1@),
                    i,
                    j,
                ),
        },
{
    let ls = LocalSearch::new(first_improvement);
    let ghost step: PairStep = problem.insertion_steps(route1@, route2@, sequence_length as int);

    let search = |index1: usize, c1: &RouteEntryClient, index2: usize, c2: &RouteEntryClient| -> (out:
        Result<((RouteEntry, RouteEntry), Cost), LocalSearchNotFound>)
        requires
            index1 < route1.clients.len(),
            index2 < route2.clients.len(),
            *c1 == route1.clients[index1 as int],
            *c2 == route2.clients[index2 as int],
        ensures
            (match out {
                Ok((new, value)) => step(index1 as int, index2 as int) == Some((new.0@, new.1@))
                    && value == pair_cost((new.0@, new.1@)) && new.0.wf(problem) && new.1.wf(
                    problem,
                ),
                Err(_) => step(index1 as int, index2 as int) is None,
            }),
        {
            let clients_left = route2.clients.len() - index2 - 1;

            if c1.client_id == problem.source || c2.client_id == problem.source || clients_left
                < sequence_length {
                return Err(LocalSearchNotFound);
            }
            proof {
                assert(LIMIT == 0x4000_0000 && MAX_STOPS == 0x1_0000 && VARIABLE_CAP
                    == 0x1000_0000_0000_0000_0000);
            }
            if route1.clients.len() + sequence_length > MAX_STOPS {
                return Err(LocalSearchNotFound);
            }
            let insert_result = try_insert_nodes(
                problem,
                route1,
                route2,
                index1,
                index2,
                sequence_length,
            );
            if let Ok((new_route1, new_route2)) = insert_result {
                let new_value = new_route1.route_cost() + new_route2.route_cost();
                let old_value = route1.route_cost() + route2.route_cost();

                if new_value < old_value {
                    return Ok(((new_route1, new_route2), new_value));
                }
            }
            Err(LocalSearchNotFound)
        };

    let found = ls.iterate(&route1.clients, &route2.clients, search);
    proof {
        let v1 = route1.clients@;
        let v2 = route2.clients@;
        if found is None {
            assert forall|i: int, j: int| 0 <= i < v1.len() && 0 <= j < v2.len() implies (
            #[trigger] problem.insertion_step(route1@, route2@, sequence_length as int, i, j))
                is None by {
                assert(fails_at(search, v1, v2, i, j));
                assert(step(i, j) is None);
            }
        } else {
            let new = found.unwrap();
            let (i, j, c) = choose|i: int, j: int, c: Cost| #[trigger]
                picked(search, v1, v2, first_improvement, new, i, j, c);
            assert(yields_at(search, v1, v2, i, j, new, c));
            assert(step(i, j) == Some((new.0@, new.1@)));
            if first_improvement {
                assert forall|a: int, b: int|
                    0 <= a < v1.len() && 0 <= b < v2.len() && before(a, b, i, j) implies (
                #[trigger] step(a, b)) is None by {
                    assert(fails_at(search, v1, v2, a, b));
                }
            } else {
                assert forall|a: int, b: int|
                    0 <= a < v1.len() && 0 <= b < v2.len() && (#[trigger] step(a, b))
                        is Some implies pair_cost((new.0@, new.1@)) <= pair_cost(
                    step(a, b).unwrap(),
                ) && (before(a, b, i, j) ==> pair_cost((new.0@, new.1@)) < pair_cost(
                    step(a, b).unwrap(),
                )) by {
                    assert(no_better_at(search, v1, v2, a, b, c, before(a, b, i, j)));
                    if fails_at(search, v1, v2, a, b) {
                        assert(step(a, b) is None);
                    } else {
                        let (s2, c2) = choose|s2: (RouteEntry, RouteEntry), c2: Cost|
                            #[trigger] yields_at(search, v1, v2, a, b, s2, c2) && c <= c2 && (before(
                                a,
                                b,
                                i,
                                j,
                            ) ==> c < c2);
                        assert(step(a, b) == Some((s2.0@, s2.1@)));
                    }
                }
            }
            assert(chosen(
                step,
                v1.len() as int,
                v2.len() as int,
                first_improvement,
                (new.0@, new.1@),
                i,
                j,
            ));
        }
    }
    found
}

} // verus!
