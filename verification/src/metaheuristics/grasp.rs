use vstd::prelude::*;
use super::construction::{
    lemma_one_at_depot, lemma_opened_none, lemma_opened_update, opened_count, COST_CAP,
};
use super::coverage::{
    building_ids, count_in, lemma_count_empty, lemma_count_push, lemma_remove_one,
    lemma_visits_agree, lemma_visits_none, lemma_visits_update, route_ids, visits,
};
use super::insertion_search::insertion_search;
use super::invariants::rebuilt;
use super::local_search::{before, fails_at, no_better_at, picked, yields_at, LocalSearch, LocalSearchNotFound};
use super::opt2_search::{chosen, opt2_search};
use super::order::{ordered, sorted_order};
use super::schedule::{LATEST_ARRIVAL, TIME_CAP};
use super::types::{GraspConfig, GraspRoute, GraspRouteMove};
use super::utils::{alpha_max_index, alpha_rcl_choose, transform_solution};
use crate::types::others::{
    copy_stops, stop_ids, Cost, RouteEntry, Time, HORIZON, LIMIT, MAX_ROUTES, MAX_STOPS, SCALE,
};
use crate::types::problem_instance::{client_ok, row_ok, vehicle_ok, ProblemInstance};
use crate::types::solution::{Solution, SolutionModel};
use crate::utils::time_max;

verus! {

/// A move of one vehicle: the client it goes to, and the cost.
#[derive(Debug, Clone, Copy)]
pub struct BasicMove(pub usize, pub Cost);

/// The search: greedy randomised construction, then local search.
#[derive(Debug, Clone, Copy)]
pub struct Grasp {
    pub config: GraspConfig,
}

impl Grasp {
    /// Builds a solution and improves it by local search. The solution is
    /// as the search keeps it: every route is framed by the depot, timed
    /// stop by stop and within the capacity of its vehicle, no vehicle has
    /// two routes, and the value is the total cost of the routes, which is
    /// at most the value after construction. Every client but the depot is
    /// visited exactly once where every visit costs something: the local
    /// search drops a route that costs nothing, whatever it visits.
    /// Without local search the solution is as it was built: it
    /// visits every client once, and every stop but the return to the
    /// depot is reached in time. Fails if the construction finds no move
    /// while a client is still to be visited: never where every vehicle
    /// can go from the depot straight to every client and there is a
    /// vehicle for every client, always where a client demands more than
    /// any vehicle can carry.
    pub fn iterate(&self, problem: &ProblemInstance) -> (r: Result<Solution, String>)
        requires
            problem.wf(),
            self.config.wf(),
        ensures
            match r {
                Ok(sol) => sol.wf(problem) && problem.sound(sol@) && sol.value
                    <= sol.construction_value && sol.iter_found == 0 && (
                problem.pays_for_visits() ==> problem.covers(sol@)) && (
                self.config.local_search_iters <= 0 || (!self.config.opt2_search_enabled
                    && !self.config.insertion_search_enabled) ==> sol.value
                    == sol.construction_value && problem.covers(sol@) && forall|k: int|
                    0 <= k < sol@.routes.len() ==> problem.on_time_until_return(
                        (#[trigger] sol@.routes[k]).clients,
                    )),
                Err(e) => e@ == "Couldn't find a feasible solution"@,
            },
            problem.clients.len() == 1 || self.always_builds(problem) ==> r is Ok,
            Self::never_builds(problem) ==> r is Err,
    {
        match self.build_solution(problem) {
            Err(err) => Err(err),
            Ok(initial_sol) => self.local_search(initial_sol, problem),
        }
    }

    /// Improves a solution by passes of local search, each a round of
    /// exchanges and then a round of insertions as far as they are enabled,
    /// until a round finds nothing or the passes are used up: `searched`.
    /// Of a solution as the search keeps it, the value never rises.
    pub fn local_search(&self, sol: Solution, problem: &ProblemInstance) -> (r: Result<Solution, String>)
        requires
            problem.wf(),
            sol.wf(problem),
        ensures
            r is Ok,
            self.searched(problem, sol@, r.unwrap()@, self.config.local_search_iters as int),
            r.unwrap().wf(problem),
            r.unwrap().construction_value == sol.construction_value,
            r.unwrap().iter_found == sol.iter_found,
            problem.sound(sol@) ==> problem.sound(r.unwrap()@) && r.unwrap().value <= sol.value,
            problem.sound(sol@) && problem.pays_for_visits() && problem.covers(sol@)
                ==> problem.covers(r.unwrap()@),
            self.config.local_search_iters <= 0 || (!self.config.opt2_search_enabled
                && !self.config.insertion_search_enabled) ==> r.unwrap()@ == sol@,
    {
        let ghost start = sol@;
        let ghost rounds = self.config.local_search_iters as int;
        let mut best_sol = sol;
        let mut iteration = self.config.local_search_iters;
        let mut should_break = false;
        proof {
            if rounds <= 0 {
                assert(self.searched(problem, start, start, rounds));
            }
        }

        while iteration > 0
            invariant_except_break
                !should_break,
                forall|r: SolutionModel| #[trigger]
                    self.searched(problem, best_sol@, r, iteration as int) ==> self.searched(
                        problem,
                        start,
                        r,
                        rounds,
                    ),
            invariant
                problem.wf(),
                rounds == self.config.local_search_iters,
                best_sol.wf(problem),
                best_sol.construction_value == start.construction_value,
                best_sol.iter_found == start.iter_found,
                problem.sound(start) ==> problem.sound(best_sol@) && best_sol.value <= start.value,
                problem.sound(start) && problem.pays_for_visits() && problem.covers(start)
                    ==> problem.covers(best_sol@),
                !self.config.opt2_search_enabled && !self.config.insertion_search_enabled
                    ==> best_sol@ == start,
                iteration <= self.config.local_search_iters,
                self.config.local_search_iters <= 0 ==> best_sol@ == start,
                iteration <= 0 && !should_break ==> self.searched(
                    problem,
                    start,
                    best_sol@,
                    rounds,
                ),
            ensures
                self.searched(problem, start, best_sol@, rounds),
            decreases iteration,
        {
            let ghost before_pass = best_sol@;
            let ghost left = iteration as int;
            iteration -= 1;

            if self.config.opt2_search_enabled {
                if let Some(new_sol) = self.opt2_local_search(&best_sol, problem) {
                    proof {
                        self.lemma_round_is_step(problem, false, best_sol@, new_sol@);
                        if problem.sound(best_sol@) {
                            problem.law_exchange_keeps_sound(best_sol@, new_sol@);
                            if problem.pays_for_visits() && problem.covers(best_sol@) {
                                problem.law_exchange_keeps_cover(best_sol@, new_sol@);
                            }
                        }
                    }
                    best_sol = new_sol;
                } else {
                    should_break = true;
                }
            }
            let ghost mid = best_sol@;
            let ghost stop1 = should_break;
            assert(self.part(problem, false, before_pass, mid, stop1));
            let ghost mut stop2 = false;
            if self.config.insertion_search_enabled {
                if let Some(new_sol) = self.insertion_local_search(&best_sol, problem) {
                    proof {
                        let len = self.config.insertion_search_sequence_length as int;
                        self.lemma_round_is_step(problem, true, best_sol@, new_sol@);
                        if problem.sound(best_sol@) {
                            problem.law_insertion_keeps_sound(best_sol@, new_sol@, len);
                            if problem.pays_for_visits() && problem.covers(best_sol@) {
                                problem.law_insertion_keeps_cover(best_sol@, new_sol@, len);
                            }
                        }
                    }
                    best_sol = new_sol
                } else {
                    should_break = true;
                    proof {
                        stop2 = true;
                    }
                }
            }
            proof {
                let after = best_sol@;
                assert(self.part(problem, true, mid, after, stop2));
                assert(should_break == (stop1 || stop2));
                assert(self.pass(problem, before_pass, mid, after, should_break));
                if should_break {
                    assert(self.searched(problem, before_pass, after, left));
                } else {
                    assert forall|r: SolutionModel| #[trigger]
                        self.searched(problem, after, r, left - 1) implies self.searched(
                        problem,
                        start,
                        r,
                        rounds,
                    ) by {
                        assert(self.searched(problem, before_pass, r, left));
                    }
                    if left - 1 <= 0 {
                        assert(self.searched(problem, after, after, left - 1));
                    }
                }
            }
            if should_break {
                break ;
            }
        }

        Ok(best_sol)
    }

    /// One round of insertions: what the insertion answers for the first
    /// pair of routes for which it has an answer, or, where the search
    /// does not take the first improvement, for the first of the pairs for
    /// which its answer has the least value; nothing if it has no answer
    /// for any pair.
    fn insertion_local_search(&self, sol: &Solution, problem: &ProblemInstance) -> (r: Option<Solution>)
        requires
            problem.wf(),
            sol.wf(problem),
        ensures
            match r {
                None => self.nothing_found(problem, true, sol@),
                Some(new) => new.wf(problem) && self.round(problem, true, sol@, new@),
            },
    {
        let ls = LocalSearch::new(self.config.local_search_first_improvement);

        let search = |_index1: usize, route1: &RouteEntry, _index2: usize, route2: &RouteEntry| -> (out:
            Result<(Solution, Cost), LocalSearchNotFound>)
            requires
                _index1 < sol.routes.len(),
                _index2 < sol.routes.len(),
                *route1 == sol.routes[_index1 as int],
                *route2 == sol.routes[_index2 as int],
            ensures
                (match out {
                    Ok((new, value)) => value == new.value && new.wf(problem) && self.answer(
                        problem,
                        true,
                        sol@,
                        _index1 as int,
                        _index2 as int,
                        new@,
                    ),
                    Err(_) => self.refused(problem, true, sol@, _index1 as int, _index2 as int),
                }),
            {
                assert(sol@.routes[_index1 as int] == route1@);
                assert(sol@.routes[_index2 as int] == route2@);
                proof {
                    problem.lemma_solution_fits(sol@);
                    assert forall|k: int| 0 <= k < sol.routes.len() implies (
                    #[trigger] sol.routes[k])@.route_cost() <= u128::MAX by {
                        assert(sol@.routes[k] == sol.routes[k]@);
                    }
                }
                if route1.vehicle_id == route2.vehicle_id {
                    return Err(LocalSearchNotFound);
                }
                let local_search_result = insertion_search(
                    problem,
                    route1,
                    route2,
                    self.config.insertion_search_sequence_length,
                    self.config.insertion_search_first_improvement,
                );

                if let Some((new_route1, new_route2)) = local_search_result {
                    let ghost pair = (new_route1@, new_route2@);
                    let ghost step = self.step_of(problem, true, route1@, route2@);
                    let ghost (i, j) = choose|i: int, j: int| #[trigger]
                        chosen(
                            step,
                            route1.clients.len() as int,
                            route2.clients.len() as int,
                            self.takes_first(true),
                            pair,
                            i,
                            j,
                        );
                    proof {
                        assert(step(i, j) == Some(pair));
                        assert(problem.insertion_step(route1@, route2@, self.config.insertion_search_sequence_length as int, i, j) == Some(pair));
                        problem.lemma_insertion_framed(route1@, route2@, self.config.insertion_search_sequence_length as int, i, j);
                        problem.lemma_swapped_ok(sol@, pair);
                        problem.lemma_solution_fits(
                            SolutionModel {
                                routes: super::utils::costly(
                                    super::utils::swapped(sol@.routes, pair.0, pair.1),
                                ),
                                ..sol@
                            },
                        );
                    }
                    let mut new_sol = transform_solution(sol, &new_route1, &new_route2);
                    problem.evaluate_sol(&mut new_sol);
                    let value = new_sol.value;
                    proof {
                        assert(new_sol@ == rebuilt(sol@, pair));
                        assert(self.answer_at(
                            problem,
                            true,
                            sol@,
                            _index1 as int,
                            _index2 as int,
                            new_sol@,
                            i,
                            j,
                        ));
                    }
                    Ok((new_sol, value))
                } else {
                    Err(LocalSearchNotFound)
                }
            };

        let found = ls.iterate(&sol.routes, &sol.routes, search);
        proof {
            let v = sol.routes@;
            let first = self.config.local_search_first_improvement;
            if found is None {
                assert forall|a: int, b: int|
                    0 <= a < sol.routes.len() && 0 <= b < sol.routes.len() implies #[trigger] self.refused(
                    problem,
                    true,
                    sol@,
                    a,
                    b,
                ) by {
                    assert(fails_at(search, v, v, a, b));
                }
            } else {
                let new = found.unwrap();
                let (a, b, c) = choose|a: int, b: int, c: Cost| #[trigger]
                    picked(search, v, v, first, new, a, b, c);
                assert(yields_at(search, v, v, a, b, new, c));
                if first {
                    assert forall|x: int, y: int|
                        0 <= x < sol.routes.len() && 0 <= y < sol.routes.len() && before(
                            x,
                            y,
                            a,
                            b,
                        ) implies #[trigger] self.refused(problem, true, sol@, x, y) by {
                        assert(fails_at(search, v, v, x, y));
                    }
                } else {
                    assert forall|x: int, y: int|
                        0 <= x < sol.routes.len() && 0 <= y < sol.routes.len() implies #[trigger] self.no_better(
                        problem,
                        true,
                        sol@,
                        x,
                        y,
                        new@.value,
                        before(x, y, a, b),
                    ) by {
                        assert(no_better_at(search, v, v, x, y, c, before(x, y, a, b)));
                        if !fails_at(search, v, v, x, y) {
                            let (s2, c2) = choose|s2: Solution, c2: Cost|
                                #[trigger] yields_at(search, v, v, x, y, s2, c2) && c <= c2 && (
                                before(x, y, a, b) ==> c < c2);
                            assert(self.answer(problem, true, sol@, x, y, s2@));
                        }
                    }
                }
                assert(self.round_at(problem, true, sol@, new@, a, b));
            }
        }
        found
    }

    /// One round of exchanges: what the exchange answers for the first
    /// pair of routes for which it has an answer, or, where the search
    /// does not take the first improvement, for the first of the pairs for
    /// which its answer has the least value; nothing if it has no answer
    /// for any pair.
    fn opt2_local_search(&self, sol: &Solution, problem: &ProblemInstance) -> (r: Option<Solution>)
        requires
            problem.wf(),
            sol.wf(problem),
        ensures
            match r {
                None => self.nothing_found(problem, false, sol@),
                Some(new) => new.wf(problem) && self.round(problem, false, sol@, new@),
            },
    {
        let ls = LocalSearch::new(self.config.local_search_first_improvement);

        let search = |_index1: usize, route1: &RouteEntry, _index2: usize, route2: &RouteEntry| -> (out:
            Result<(Solution, Cost), LocalSearchNotFound>)
            requires
                _index1 < sol.routes.len(),
                _index2 < sol.routes.len(),
                *route1 == sol.routes[_index1 as int],
                *route2 == sol.routes[_index2 as int],
            ensures
                (match out {
                    Ok((new, value)) => value == new.value && new.wf(problem) && self.answer(
                        problem,
                        false,
                        sol@,
                        _index1 as int,
                        _index2 as int,
                        new@,
                    ),
                    Err(_) => self.refused(problem, false, sol@, _index1 as int, _index2 as int),
                }),
            {
                assert(sol@.routes[_index1 as int] == route1@);
                assert(sol@.routes[_index2 as int] == route2@);
                proof {
                    problem.lemma_solution_fits(sol@);
                    assert forall|k: int| 0 <= k < sol.routes.len() implies (
                    #[trigger] sol.routes[k])@.route_cost() <= u128::MAX by {
                        assert(sol@.routes[k] == sol.routes[k]@);
                    }
                }
                if route1.vehicle_id == route2.vehicle_id {
                    return Err(LocalSearchNotFound);
                }
                let local_search_result = opt2_search(
                    problem,
                    route1,
                    route2,
                    self.config.opt2_search_first_improvement,
                );

                if let Some((new_route1, new_route2)) = local_search_result {
                    let ghost pair = (new_route1@, new_route2@);
                    let ghost step = self.step_of(problem, false, route1@, route2@);
                    let ghost (i, j) = choose|i: int, j: int| #[trigger]
                        chosen(
                            step,
                            route1.clients.len() as int,
                            route2.clients.len() as int,
                            self.takes_first(false),
                            pair,
                            i,
                            j,
                        );
                    proof {
                        assert(step(i, j) == Some(pair));
                        assert(problem.opt2_step(route1@, route2@, i, j) == Some(pair));
                        problem.lemma_opt2_framed(route1@, route2@, i, j);
                        problem.lemma_swapped_ok(sol@, pair);
                        problem.lemma_solution_fits(
                            SolutionModel {
                                routes: super::utils::costly(
                                    super::utils::swapped(sol@.routes, pair.0, pair.1),
                                ),
                                ..sol@
                            },
                        );
                    }
                    let mut new_sol = transform_solution(sol, &new_route1, &new_route2);
                    problem.evaluate_sol(&mut new_sol);
                    let value = new_sol.value;
                    proof {
                        assert(new_sol@ == rebuilt(sol@, pair));
                        assert(self.answer_at(
                            problem,
                            false,
                            sol@,
                            _index1 as int,
                            _index2 as int,
                            new_sol@,
                            i,
                            j,
                        ));
                    }
                    Ok((new_sol, value))
                } else {
                    Err(LocalSearchNotFound)
                }
            };

        let found = ls.iterate(&sol.routes, &sol.routes, search);
        proof {
            let v = sol.routes@;
            let first = self.config.local_search_first_improvement;
            if found is None {
                assert forall|a: int, b: int|
                    0 <= a < sol.routes.len() && 0 <= b < sol.routes.len() implies #[trigger] self.refused(
                    problem,
                    false,
                    sol@,
                    a,
                    b,
                ) by {
                    assert(fails_at(search, v, v, a, b));
                }
            } else {
                let new = found.unwrap();
                let (a, b, c) = choose|a: int, b: int, c: Cost| #[trigger]
                    picked(search, v, v, first, new, a, b, c);
                assert(yields_at(search, v, v, a, b, new, c));
                if first {
                    assert forall|x: int, y: int|
                        0 <= x < sol.routes.len() && 0 <= y < sol.routes.len() && before(
                            x,
                            y,
                            a,
                            b,
                        ) implies #[trigger] self.refused(problem, false, sol@, x, y) by {
                        assert(fails_at(search, v, v, x, y));
                    }
                } else {
                    assert forall|x: int, y: int|
                        0 <= x < sol.routes.len() && 0 <= y < sol.routes.len() implies #[trigger] self.no_better(
                        problem,
                        false,
                        sol@,
                        x,
                        y,
                        new@.value,
                        before(x, y, a, b),
                    ) by {
                        assert(no_better_at(search, v, v, x, y, c, before(x, y, a, b)));
                        if !fails_at(search, v, v, x, y) {
                            let (s2, c2) = choose|s2: Solution, c2: Cost|
                                #[trigger] yields_at(search, v, v, x, y, s2, c2) && c <= c2 && (
                                before(x, y, a, b) ==> c < c2);
                            assert(self.answer(problem, false, sol@, x, y, s2@));
                        }
                    }
                }
                assert(self.round_at(problem, false, sol@, new@, a, b));
            }
        }
        found
    }

    /// The moves that one vehicle offers: the cheapest of those it can make
    /// to the clients still to be visited, as many as the largest index
    /// within the greediness for one vehicle says, and one more, or the
    /// least number asked for if that is more.
    fn vehicle_moves(
        &self,
        vroute: &GraspRoute,
        available_clients: &Vec<usize>,
        problem: &ProblemInstance,
        Ghost(routes): Ghost<Seq<GraspRoute>>,
    ) -> (ret: Vec<GraspRouteMove>)
        requires
            problem.wf(),
            self.config.wf(),
            vroute.vehicle_id < routes.len(),
            routes[vroute.vehicle_id as int] == *vroute,
            problem.building(vroute, vroute.vehicle_id as int),
            forall|k: int|
                0 <= k < available_clients.len() ==> (#[trigger] available_clients[k])
                    < problem.clients.len(),
        ensures
            forall|k: int|
                0 <= k < ret.len() ==> self.valid_move(
                    problem,
                    routes,
                    available_clients@,
                    #[trigger] ret[k],
                ) && ret[k].vehicle_id == vroute.vehicle_id,
            ret.len() == 0 <==> forall|k: int|
                0 <= k < available_clients.len() ==> !#[trigger] self.candidate(
                    problem,
                    vroute,
                    available_clients[k] as int,
                ),
            self.offers(problem, vroute, available_clients@, ret@),
    {
        let ghost v = vroute.vehicle_id as int;
        let ghost pred = |c: usize| self.candidate(problem, vroute, c as int);
        proof {
            reveal(Seq::filter);
            assert(available_clients@.take(0) =~= Seq::<usize>::empty());
        }
        proof {
            assert(LIMIT == 0x4000_0000 && HORIZON == 0x1000_0000_0000_0000 && SCALE == 1000
                && COST_CAP == 0x100_0000_0000_0000_0000_0000_0000 && LATEST_ARRIVAL
                == 0x8_0000_0000_0000);
            assert(vroute.route@.last().leave_time <= HORIZON - 2 * LIMIT);
            assert(vroute.route@.last().client_id < problem.clients.len());
            assert(row_ok(
                problem.distances@[vroute.current_client_id as int]@,
                problem.clients.len() as int,
            ));
        }
        /* the moves that the vehicle can make */
        let mut move_list: Vec<BasicMove> = Vec::new();
        let mut k: usize = 0;
        while k < available_clients.len()
            invariant
                problem.wf(),
                self.config.wf(),
                k <= available_clients.len(),
                v == vroute.vehicle_id,
                v < routes.len(),
                routes[v] == *vroute,
                problem.building(vroute, v),
                vroute.current_client_id < problem.clients.len(),
                vroute.current_time <= HORIZON - 2 * LIMIT,
                forall|x: int|
                    0 <= x < available_clients.len() ==> (#[trigger] available_clients[x])
                        < problem.clients.len(),
                forall|x: int|
                    0 <= x < move_list.len() ==> self.valid_move(
                        problem,
                        routes,
                        available_clients@,
                        GraspRouteMove {
                            vehicle_id: vroute.vehicle_id,
                            target_client_id: (#[trigger] move_list[x]).0,
                            cost: move_list[x].1,
                        },
                    ),
                move_list.len() == 0 <==> forall|x: int|
                    0 <= x < k ==> !#[trigger] self.candidate(
                        problem,
                        vroute,
                        available_clients[x] as int,
                    ),
                pred == (|c: usize| self.candidate(problem, vroute, c as int)),
                Seq::new(move_list.len() as nat, |x: int| move_list[x].0)
                    == available_clients@.take(k as int).filter(pred),
            decreases available_clients.len() - k,
        {
            let client_id = available_clients[k];
            let client = &problem.clients[client_id];
            proof {
                assert(client_ok(problem.clients@[client_id as int], client_id as int));
                assert(problem.distances@[vroute.current_client_id as int]@[client_id as int]
                    <= LIMIT);
            }
            let enough_capacity = client.demand <= vroute.capacity_left;
            let mut arrival_time = vroute.current_time
                + problem.distances[vroute.current_client_id][client.id];

            /* a vehicle that is early waits for the window to open */
            let wait_time = if client.earliest > arrival_time {
                client.earliest - arrival_time
            } else {
                0
            };
            let ghost reach = arrival_time as int;
            let ghost had = move_list.len();
            proof {
                assert(client.id == client_id);
                assert(reach == vroute.current_time + problem.dist(
                    vroute.current_client_id as int,
                    client_id as int,
                ));
                assert(wait_time == Self::wait_for(problem, client_id as int, reach));
            }
            if wait_time <= self.config.max_wait_time {
                arrival_time = time_max(arrival_time, client.earliest);

                let enough_time = problem.is_move_feasible(
                    vroute.current_client_id,
                    client.id,
                    vroute.current_time,
                );

                if enough_capacity && enough_time {
                    proof {
                        self.lemma_cost_bound(
                            problem,
                            vroute,
                            client_id as int,
                            arrival_time as int,
                            wait_time as int,
                        );
                        assert(available_clients@[k as int] == client_id);
                    }
                    let move_cost = self.compute_move_cost(
                        problem,
                        vroute,
                        client_id,
                        arrival_time,
                        wait_time,
                    );
                    move_list.push(BasicMove(client_id, move_cost));
                }
            }
            proof {
                assert((move_list.len() > had) == self.candidate(
                    problem,
                    vroute,
                    available_clients[k as int] as int,
                ));
                let seen = available_clients@.take(k as int);
                assert(available_clients@.take(k + 1) =~= seen.push(client_id));
                seen.lemma_filter_push(client_id, pred);
                assert(Seq::new(move_list.len() as nat, |x: int| move_list[x].0)
                    =~= available_clients@.take(k + 1).filter(pred));
            }
            k += 1;
        }

        /* by cost, and the cheapest of them */
        let mut costs: Vec<Cost> = Vec::new();
        let mut x: usize = 0;
        while x < move_list.len()
            invariant
                x <= move_list.len(),
                costs.len() == x,
                forall|y: int| 0 <= y < x ==> costs[y] == (#[trigger] move_list[y]).1,
            decreases move_list.len() - x,
        {
            costs.push(move_list[x].1);
            x += 1;
        }
        let order = sorted_order(&costs);
        let mut move_costs: Vec<Cost> = Vec::new();
        let mut x: usize = 0;
        while x < order.len()
            invariant
                x <= order.len(),
                ordered(costs@, order@),
                move_costs.len() == x,
                forall|y: int| 0 <= y < x ==> #[trigger] move_costs[y] == costs[order[y] as int],
            decreases order.len() - x,
        {
            move_costs.push(costs[order[x]]);
            x += 1;
        }
        proof {
            assert forall|a: int, b: int| 0 <= a <= b < move_costs.len() implies move_costs[a]
                <= move_costs[b] by {
                if a < b {
                    assert(costs[order[a] as int] <= costs[order[b] as int]);
                }
            }
            if move_costs.len() > 0 {
                let last = order[move_costs.len() - 1] as int;
                assert(self.valid_move(
                    problem,
                    routes,
                    available_clients@,
                    GraspRouteMove {
                        vehicle_id: vroute.vehicle_id,
                        target_client_id: move_list[last].0,
                        cost: move_list[last].1,
                    },
                ));
                assert(move_costs@.last() == move_list[last].1);
            }
        }
        let moves_per_vehicle = {
            let alpha_moves = match alpha_max_index(&move_costs, self.config.moves_per_vehicle_alpha) {
                Some(index) => index + 1,
                None => 1,
            };
            let wanted = if alpha_moves > self.config.moves_per_vehicle_min_size {
                alpha_moves
            } else {
                self.config.moves_per_vehicle_min_size
            };
            if wanted < move_list.len() {
                wanted
            } else {
                move_list.len()
            }
        };

        assert(moves_per_vehicle == self.quota(move_costs@));
        let mut ret: Vec<GraspRouteMove> = Vec::new();
        let mut index: usize = 0;
        while index < moves_per_vehicle
            invariant
                index <= moves_per_vehicle <= move_list.len(),
                ordered(costs@, order@),
                costs.len() == move_list.len(),
                ret.len() == index,
                forall|x: int|
                    0 <= x < move_list.len() ==> self.valid_move(
                        problem,
                        routes,
                        available_clients@,
                        GraspRouteMove {
                            vehicle_id: vroute.vehicle_id,
                            target_client_id: (#[trigger] move_list[x]).0,
                            cost: move_list[x].1,
                        },
                    ),
                forall|x: int|
                    0 <= x < ret.len() ==> self.valid_move(
                        problem,
                        routes,
                        available_clients@,
                        #[trigger] ret[x],
                    ) && ret[x].vehicle_id == vroute.vehicle_id,
                forall|x: int|
                    0 <= x < ret.len() ==> #[trigger] ret[x] == (GraspRouteMove {
                        vehicle_id: vroute.vehicle_id,
                        target_client_id: move_list[order[x] as int].0,
                        cost: move_list[order[x] as int].1,
                    }),
            decreases moves_per_vehicle - index,
        {
            assert(order[index as int] < costs.len());
            let BasicMove(client_id, cost) = move_list[order[index]];
            ret.push(GraspRouteMove { cost, target_client_id: client_id, vehicle_id: vroute.vehicle_id });
            index += 1;
        }
        proof {
            let clients = self.candidates(problem, vroute, available_clients@);
            let all_costs = self.costs_to(problem, vroute, clients);
            assert(available_clients@.take(available_clients.len() as int) =~= available_clients@);
            assert(clients == Seq::new(move_list.len() as nat, |x: int| move_list[x].0));
            assert(costs@ =~= all_costs) by {
                assert forall|x: int| 0 <= x < costs.len() implies costs[x] == all_costs[x] by {
                    assert(self.valid_move(
                        problem,
                        routes,
                        available_clients@,
                        GraspRouteMove {
                            vehicle_id: vroute.vehicle_id,
                            target_client_id: move_list[x].0,
                            cost: move_list[x].1,
                        },
                    ));
                }
            }
            assert(move_costs@ =~= Self::in_order(all_costs, order@));
            assert(self.offered(problem, vroute, available_clients@, order@, ret@));
        }
        ret
    }

    /// The moves on offer: what every vehicle offers, vehicle by vehicle.
    /// There is none exactly if no vehicle can go on to any client that is
    /// still to be visited.
    fn get_possible_moves(
        &self,
        vehicle_routes: &Vec<GraspRoute>,
        available_clients: &Vec<usize>,
        problem: &ProblemInstance,
    ) -> (ret: Vec<GraspRouteMove>)
        requires
            problem.wf(),
            self.config.wf(),
            forall|v: int|
                0 <= v < vehicle_routes.len() ==> problem.building(#[trigger] &vehicle_routes[v], v),
            forall|k: int|
                0 <= k < available_clients.len() ==> (#[trigger] available_clients[k])
                    < problem.clients.len(),
        ensures
            forall|k: int|
                0 <= k < ret.len() ==> self.valid_move(
                    problem,
                    vehicle_routes@,
                    available_clients@,
                    #[trigger] ret[k],
                ),
            ret.len() == 0 <==> self.stuck(problem, vehicle_routes@, available_clients@),
            exists|cuts: Seq<int>| #[trigger]
                self.pooled(problem, vehicle_routes@, available_clients@, ret@, cuts),
    {
        let mut ret: Vec<GraspRouteMove> = Vec::new();
        let ghost mut cuts: Seq<int> = seq![0int];
        let mut v: usize = 0;
        proof {
            assert(vehicle_routes@.take(0).len() == 0);
        }
        while v < vehicle_routes.len()
            invariant
                problem.wf(),
                self.config.wf(),
                v <= vehicle_routes.len(),
                forall|x: int|
                    0 <= x < vehicle_routes.len() ==> problem.building(
                        #[trigger] &vehicle_routes[x],
                        x,
                    ),
                forall|k: int|
                    0 <= k < available_clients.len() ==> (#[trigger] available_clients[k])
                        < problem.clients.len(),
                forall|k: int|
                    0 <= k < ret.len() ==> self.valid_move(
                        problem,
                        vehicle_routes@,
                        available_clients@,
                        #[trigger] ret[k],
                    ),
                ret.len() == 0 <==> forall|x: int, k: int|
                    0 <= x < v && 0 <= k < available_clients.len() ==> !#[trigger] self.candidate(
                        problem,
                        &vehicle_routes[x],
                        available_clients[k] as int,
                    ),
                self.pooled(
                    problem,
                    vehicle_routes@.take(v as int),
                    available_clients@,
                    ret@,
                    cuts,
                ),
            decreases vehicle_routes.len() - v,
        {
            let vroute = &vehicle_routes[v];
            assert(problem.building(&vehicle_routes[v as int], v as int));
            let mut moves = self.vehicle_moves(
                vroute,
                available_clients,
                problem,
                Ghost(vehicle_routes@),
            );
            let ghost before = ret@;
            let ghost added = moves@;
            ret.append(&mut moves);
            proof {
                assert(ret@ =~= before + added);
                self.lemma_pool_grows(
                    problem,
                    vehicle_routes@,
                    available_clients@,
                    before,
                    added,
                    cuts,
                    v as int,
                );
                cuts = cuts.push((before.len() + added.len()) as int);
                assert forall|k: int| 0 <= k < ret.len() implies self.valid_move(
                    problem,
                    vehicle_routes@,
                    available_clients@,
                    #[trigger] ret[k],
                ) by {
                    if k < before.len() {
                        assert(ret[k] == before[k]);
                    } else {
                        assert(ret[k] == added[k - before.len()]);
                    }
                }
            }
            v += 1;
        }
        proof {
            assert(vehicle_routes@.take(vehicle_routes.len() as int) =~= vehicle_routes@);
        }
        ret
    }

    /// The cost of the move of the vehicle on to `client_to`, where it
    /// starts at `arrival_time` after waiting for `wait_time`.
    fn compute_move_cost(
        &self,
        problem: &ProblemInstance,
        vroute: &GraspRoute,
        client_to: usize,
        arrival_time: Time,
        wait_time: Time,
    ) -> (r: Cost)
        requires
            problem.wf(),
            self.config.wf(),
            vroute.vehicle_id < problem.vehicles.len(),
            vroute.current_client_id < problem.clients.len(),
            client_to < problem.clients.len(),
            arrival_time <= HORIZON,
            wait_time <= LIMIT,
        ensures
            r == self.cost_of(problem, vroute, client_to as int, arrival_time as int, wait_time as int),
            r <= COST_CAP,
    {
        proof {
            self.lemma_cost_bound(
                problem,
                vroute,
                client_to as int,
                arrival_time as int,
                wait_time as int,
            );
            assert(LIMIT == 0x4000_0000 && HORIZON == 0x1000_0000_0000_0000 && SCALE == 1000
                && COST_CAP == 0x100_0000_0000_0000_0000_0000_0000);
            assert(row_ok(
                problem.distances@[vroute.current_client_id as int]@,
                problem.clients.len() as int,
            ));
            assert(client_ok(problem.clients@[client_to as int], client_to as int));
            assert(vehicle_ok(
                problem.vehicles@[vroute.vehicle_id as int],
                vroute.vehicle_id as int,
            ));
        }
        let vehicle = &problem.vehicles[vroute.vehicle_id];
        let fixed_cost: Cost = if problem.source == vroute.current_client_id {
            (self.config.new_vehicle_penalty_weight as u128) * vehicle.fixed_cost
        } else {
            0
        };

        let distance = problem.distances[vroute.current_client_id][client_to];
        let client = &problem.clients[client_to];
        let close_proximity_time: Time = if client.latest > arrival_time {
            client.latest - arrival_time
        } else {
            0
        };
        let overtime: Time = if arrival_time > client.latest {
            arrival_time - client.latest
        } else {
            0
        };
        proof {
            let tw = self.config.time_weight as int;
            let pen = SCALE * problem.deviation_penalty;
            assert(0 <= tw * close_proximity_time <= tw * LIMIT) by (nonlinear_arith)
                requires
                    0 <= tw,
                    0 <= close_proximity_time <= LIMIT,
            ;
            assert(0 <= pen * overtime <= pen * HORIZON) by (nonlinear_arith)
                requires
                    0 <= pen,
                    0 <= overtime <= HORIZON,
            ;
        }

        fixed_cost + (self.config.distance_weight as u128) * (distance as u128)
            * vehicle.variable_cost + (self.config.time_weight as u128) * (
        close_proximity_time as u128) + (self.config.wait_time_weight as u128) * (wait_time as u128)
            + (SCALE as u128) * problem.deviation_penalty * (overtime as u128)
    }

    /// Chooses the next move at random among the cheapest on offer.
    fn rcl_choose<'a>(&self, moves: &'a Vec<GraspRouteMove>) -> (r: Option<&'a GraspRouteMove>)
        requires
            self.config.wf(),
            forall|a: int, b: int| 0 <= a <= b < moves.len() ==> moves[a].cost <= moves[b].cost,
            forall|k: int| 0 <= k < moves.len() ==> (#[trigger] moves[k]).cost <= COST_CAP,
        ensures
            moves.len() == 0 ==> r is None,
            r is Some ==> exists|i: int| 0 <= i < moves.len() && *r.unwrap() == moves[i],
            moves.len() > 0 && self.config.rcl_min_size > 0 ==> r is Some,
    {
        let mut costs: Vec<Cost> = Vec::new();
        let mut x: usize = 0;
        while x < moves.len()
            invariant
                x <= moves.len(),
                costs.len() == x,
                forall|y: int| 0 <= y < x ==> #[trigger] costs[y] == moves[y].cost,
            decreases moves.len() - x,
        {
            costs.push(moves[x].cost);
            x += 1;
        }
        proof {
            assert(SCALE == 1000 && COST_CAP == 0x100_0000_0000_0000_0000_0000_0000);
            if costs.len() > 0 {
                assert(costs@.last() == moves[moves.len() - 1].cost);
            }
        }
        alpha_rcl_choose(moves, &costs, self.config.rcl_alpha, self.config.rcl_min_size)
    }

    /// A route for every vehicle, each with the depot as its only stop.
    fn build_grasp_routes(problem: &ProblemInstance) -> (r: Vec<GraspRoute>)
        requires
            problem.wf(),
        ensures
            r.len() == problem.vehicles.len(),
            forall|v: int|
                0 <= v < r.len() ==> problem.building(#[trigger] &r[v], v) && r[v].route.len() == 1,
    {
        let mut routes: Vec<GraspRoute> = Vec::new();
        let mut v: usize = 0;
        proof {
            assert(LIMIT == 0x4000_0000 && HORIZON == 0x1000_0000_0000_0000);
            assert(client_ok(problem.clients@[problem.source as int], problem.source as int));
            assert(row_ok(
                problem.distances@[problem.source as int]@,
                problem.clients.len() as int,
            ));
        }
        while v < problem.vehicles.len()
            invariant
                problem.wf(),
                v <= problem.vehicles.len(),
                routes.len() == v,
                forall|x: int|
                    0 <= x < routes.len() ==> problem.building(#[trigger] &routes[x], x)
                        && routes[x].route.len() == 1,
            decreases problem.vehicles.len() - v,
        {
            let vehicle = &problem.vehicles[v];
            assert(vehicle_ok(problem.vehicles@[v as int], v as int));
            let mut grasp_route = GraspRoute {
                vehicle_id: vehicle.id,
                capacity_left: vehicle.capacity,
                current_time: problem.clients[problem.source].earliest,
                current_client_id: problem.source,
                route_time: 0,
                route: Vec::new(),
            };
            proof {
                problem.lemma_stop_bounds(
                    problem.source as int,
                    problem.source as int,
                    grasp_route.current_time,
                );
            }
            grasp_route.update(problem.source, problem);
            proof {
                let g = grasp_route.route@;
                assert(g.len() == 1);
                assert(problem.travel_time(g, 0) == 0);
                assert(problem.load(g, 0) == 0);
                assert(problem.arc_into(g, 0) == problem.dist(
                    problem.source as int,
                    problem.source as int,
                ));
                assert(problem.building(&grasp_route, v as int));
            }
            let ghost before = routes@;
            routes.push(grasp_route);
            proof {
                assert forall|x: int| 0 <= x < routes.len() implies problem.building(
                    #[trigger] &routes[x],
                    x,
                ) && routes[x].route.len() == 1 by {
                    if x < before.len() {
                        assert(routes[x] == before[x]);
                    }
                }
            }
            v += 1;
        }
        routes
    }

    /// The place of a value in a list that holds it.
    fn position_of(list: &Vec<usize>, value: usize) -> (r: usize)
        requires
            list@.contains(value),
        ensures
            r < list.len(),
            list[r as int] == value,
    {
        let mut k: usize = 0;
        while k < list.len()
            invariant
                k <= list.len(),
                list@.contains(value),
                forall|x: int| 0 <= x < k ==> list[x] != value,
            decreases list.len() - k,
        {
            if list[k] == value {
                return k;
            }
            k += 1;
        }
        proof {
            let x = choose|x: int| 0 <= x < list.len() && list[x] == value;
            assert(false);
        }
        0
    }

    /// The moves in the order of their costs.
    fn sort_moves(moves: &Vec<GraspRouteMove>) -> (r: Vec<GraspRouteMove>)
        ensures
            r.len() == moves.len(),
            forall|k: int| 0 <= k < r.len() ==> moves@.contains(#[trigger] r[k]),
            forall|a: int, b: int| 0 <= a <= b < r.len() ==> r[a].cost <= r[b].cost,
    {
        let mut costs: Vec<Cost> = Vec::new();
        let mut x: usize = 0;
        while x < moves.len()
            invariant
                x <= moves.len(),
                costs.len() == x,
                forall|y: int| 0 <= y < x ==> #[trigger] costs[y] == moves[y].cost,
            decreases moves.len() - x,
        {
            costs.push(moves[x].cost);
            x += 1;
        }
        let order = sorted_order(&costs);
        let mut sorted: Vec<GraspRouteMove> = Vec::new();
        let mut x: usize = 0;
        while x < order.len()
            invariant
                x <= order.len(),
                ordered(costs@, order@),
                costs.len() == moves.len(),
                forall|y: int| 0 <= y < costs.len() ==> #[trigger] costs[y] == moves[y].cost,
                sorted.len() == x,
                forall|y: int| 0 <= y < x ==> #[trigger] sorted[y] == moves[order[y] as int],
            decreases order.len() - x,
        {
            assert(order[x as int] < costs.len());
            sorted.push(moves[order[x]]);
            x += 1;
        }
        proof {
            assert forall|a: int, b: int| 0 <= a <= b < sorted.len() implies sorted[a].cost
                <= sorted[b].cost by {
                if a < b {
                    assert(costs[order[a] as int] <= costs[order[b] as int]);
                }
            }
            assert forall|k: int| 0 <= k < sorted.len() implies moves@.contains(
                #[trigger] sorted[k],
            ) by {
                assert(order[k] < costs.len());
                assert(moves@[order[k] as int] == sorted[k]);
            }
        }
        sorted
    }

    /// The clients that are to be visited: all but the depot.
    fn clients_to_visit(problem: &ProblemInstance) -> (r: Vec<usize>)
        requires
            problem.wf(),
        ensures
            r@.no_duplicates(),
            r.len() + 1 == problem.clients.len(),
            forall|c: usize|
                #[trigger] r@.contains(c) <==> c < problem.clients.len() && c != problem.source,
    {
        let mut all_clients: Vec<usize> = Vec::new();
        let mut index: usize = 0;
        while index < problem.clients.len()
            invariant
                index <= problem.clients.len(),
                problem.source < problem.clients.len(),
                all_clients.len() + (if problem.source < index {
                    1int
                } else {
                    0int
                }) == index,
                forall|k: int| 0 <= k < all_clients.len() ==> (#[trigger] all_clients[k]) < index,
                forall|a: int, b: int|
                    0 <= a < b < all_clients.len() ==> all_clients[a] < all_clients[b],
                forall|c: usize|
                    #[trigger] all_clients@.contains(c) <==> c < index && c != problem.source,
            decreases problem.clients.len() - index,
        {
            if index != problem.source {
                let ghost before = all_clients@;
                all_clients.push(index);
                proof {
                    assert forall|c: usize| #[trigger]
                        all_clients@.contains(c) <==> c < index + 1 && c != problem.source by {
                        if c == index {
                            assert(all_clients@[before.len() as int] == c);
                        } else if before.contains(c) {
                            let x = choose|x: int| 0 <= x < before.len() && before[x] == c;
                            assert(all_clients@[x] == c);
                        } else if all_clients@.contains(c) {
                            let x = choose|x: int|
                                0 <= x < all_clients.len() && all_clients@[x] == c;
                            assert(before[x] == c);
                        }
                    }
                }
            }
            index += 1;
        }
        all_clients
    }

    /// Builds a solution move by move: as long as a client is to be
    /// visited, one of the cheapest moves on offer is chosen at random and
    /// made; then every vehicle that has left the depot goes back to it.
    /// Fails if no move is on offer while a client is still to be visited.
    pub fn build_solution(&self, problem: &ProblemInstance) -> (r: Result<Solution, String>)
        requires
            problem.wf(),
            self.config.wf(),
        ensures
            match r {
                Ok(sol) => sol.wf(problem) && problem.sound(sol@) && problem.covers(sol@)
                    && sol.construction_value == sol.value && sol.iter_found == 0 && forall|
                    k: int,
                |
                    0 <= k < sol@.routes.len() ==> problem.on_time_until_return(
                        (#[trigger] sol@.routes[k]).clients,
                    ),
                Err(e) => e@ == "Couldn't find a feasible solution"@,
            },
            problem.clients.len() == 1 || self.always_builds(problem) ==> r is Ok,
            Self::never_builds(problem) ==> r is Err,
    {
        let mut vehicle_routes = Self::build_grasp_routes(problem);
        let mut all_clients = Self::clients_to_visit(problem);
        let ghost n = problem.clients.len();
        let ghost fleet: nat = problem.vehicles.len() as nat;
        proof {
            assert(LIMIT == 0x4000_0000 && HORIZON == 0x1000_0000_0000_0000 && MAX_STOPS
                == 0x1_0000 && MAX_ROUTES == 0x1_0000 && TIME_CAP == 0x4000_0000_0000);
            let all = building_ids(vehicle_routes@);
            assert forall|v: int| 0 <= v < all.len() implies #[trigger] all[v] == seq![
                problem.source,
            ] by {
                assert(problem.building(&vehicle_routes[v], v));
                assert(all[v] =~= seq![problem.source]);
            }
            assert forall|c: usize| c < n && c != problem.source implies #[trigger] visits(
                all,
                c,
                fleet,
            ) == 0 by {
                lemma_visits_none(all, problem.source, c, fleet);
            }
            lemma_opened_none(vehicle_routes@, fleet);
            if Self::never_builds(problem) {
                let heavy = choose|c: int| #[trigger] Self::too_heavy(problem, c);
                assert(all_clients@.contains(heavy as usize));
            }
        }

        while all_clients.len() > 0
            invariant
                problem.wf(),
                self.config.wf(),
                n == problem.clients.len(),
                fleet == problem.vehicles.len(),
                vehicle_routes.len() == fleet,
                forall|v: int|
                    0 <= v < vehicle_routes.len() ==> problem.building(
                        #[trigger] &vehicle_routes[v],
                        v,
                    ) && vehicle_routes[v].route.len() + all_clients.len() <= n,
                all_clients@.no_duplicates(),
                all_clients.len() < n,
                opened_count(vehicle_routes@, fleet) + all_clients.len() + 1 <= n,
                forall|c: int|
                    #[trigger] Self::too_heavy(problem, c) ==> all_clients@.contains(c as usize),
                forall|c: usize|
                    #[trigger] all_clients@.contains(c) ==> c < n && c != problem.source,
                forall|c: usize|
                    c < n && c != problem.source ==> #[trigger] visits(
                        building_ids(vehicle_routes@),
                        c,
                        fleet,
                    ) == (if all_clients@.contains(c) {
                        0nat
                    } else {
                        1nat
                    }),
            decreases all_clients.len(),
        {
            proof {
                assert forall|k: int| 0 <= k < all_clients.len() implies (
                #[trigger] all_clients[k]) < problem.clients.len() by {
                    assert(all_clients@.contains(all_clients[k]));
                }
            }
            let moves = self.get_possible_moves(&vehicle_routes, &all_clients, problem);
            let sorted = Self::sort_moves(&moves);
            proof {
                assert forall|k: int| 0 <= k < sorted.len() implies (#[trigger] sorted[k]).cost
                    <= COST_CAP by {
                    assert(moves@.contains(sorted[k]));
                }
            }

            proof {
                if self.always_builds(problem) {
                    // a vehicle is still at the depot, and can go to any client
                    lemma_one_at_depot(vehicle_routes@, fleet);
                    let v = choose|v: int|
                        0 <= v < fleet && (#[trigger] vehicle_routes@[v]).route.len() < 2;
                    let g = &vehicle_routes@[v];
                    assert(problem.building(g, v));
                    let c = all_clients[0];
                    assert(all_clients@.contains(c));
                    assert(self.direct(problem, v, c as int));
                    problem.lemma_load_grows(g.route@, 0, 1);
                    assert(problem.load(g.route@, 1) == 0);
                    assert(self.candidate(problem, &vehicle_routes@[v], all_clients[0] as int));
                    assert(!self.stuck(problem, vehicle_routes@, all_clients@));
                }
            }
            let next_move: GraspRouteMove = match self.rcl_choose(&sorted) {
                Some(value) => *value,
                None => {
                    return Err("Couldn't find a feasible solution".to_owned());
                },
            };
            let ghost before = vehicle_routes@;
            let ghost waiting = all_clients@;
            let ghost v = next_move.vehicle_id as int;
            let ghost t = next_move.target_client_id;
            proof {
                assert(moves@.contains(next_move));
                assert(self.valid_move(problem, before, waiting, next_move));
                assert(problem.building(&before[v], v));
                assert(before[v].route@.last().client_id < n);
                assert(before[v].route@.last().leave_time <= HORIZON - 2 * LIMIT);
                problem.lemma_stop_bounds(
                    before[v].current_client_id as int,
                    t as int,
                    before[v].current_time,
                );
                problem.lemma_totals_bounded(before[v].route@, before[v].route@.len());
                assert(before[v].route@.len() * LIMIT <= MAX_STOPS * LIMIT) by (nonlinear_arith)
                    requires
                        before[v].route@.len() <= MAX_STOPS,
                ;
            }

            let position = Self::position_of(&all_clients, next_move.target_client_id);
            all_clients.remove(position);

            vehicle_routes[next_move.vehicle_id].update(next_move.target_client_id, problem);

            proof {
                let after = vehicle_routes@;
                lemma_remove_one(waiting, position as int);
                problem.lemma_building_step(&before[v], &after[v], v, t as int);
                lemma_opened_update(before, after, v, fleet);
                assert forall|c: int| #[trigger] Self::too_heavy(problem, c) implies all_clients@.contains(
                    c as usize,
                ) by {
                    // the vehicle that moves can carry the client it moves to
                    problem.lemma_load_grows(before[v].route@, 0, before[v].route@.len());
                    assert(problem.clients@[t as int].demand <= problem.vehicles@[v].capacity);
                    assert(waiting.contains(c as usize));
                }
                assert forall|x: int| 0 <= x < after.len() implies problem.building(
                    #[trigger] &after[x],
                    x,
                ) && after[x].route.len() + all_clients.len() <= n by {
                    if x != v {
                        assert(after[x] == before[x]);
                        assert(problem.building(&before[x], x));
                    }
                }
                let all = building_ids(before);
                let all2 = building_ids(after);
                assert(all2[v] =~= all[v].push(t));
                assert forall|c: usize| c < n && c != problem.source implies #[trigger] visits(
                    all2,
                    c,
                    fleet,
                ) == (if all_clients@.contains(c) {
                    0nat
                } else {
                    1nat
                }) by {
                    lemma_visits_update(all, all2, v, c, fleet);
                    lemma_count_push(all[v], t, c);
                    assert(visits(all, c, fleet) == (if waiting.contains(c) {
                        0nat
                    } else {
                        1nat
                    }));
                }
            }
        }

        let mut sol: Solution = Solution::default();
        let ghost opened = vehicle_routes@;
        proof {
            assert(sol@.routes =~= Seq::empty());
            if Self::never_builds(problem) {
                let heavy = choose|c: int| #[trigger] Self::too_heavy(problem, c);
                assert(all_clients@.contains(heavy as usize));
            }
        }

        let mut v: usize = 0;
        while v < problem.vehicles.len()
            invariant
                problem.wf(),
                n == problem.clients.len(),
                fleet == problem.vehicles.len(),
                v <= fleet,
                vehicle_routes.len() == fleet,
                opened.len() == fleet,
                forall|x: int|
                    v <= x < fleet ==> (#[trigger] vehicle_routes[x]) == opened[x],
                forall|x: int|
                    0 <= x < fleet ==> problem.building(#[trigger] &opened[x], x)
                        && opened[x].route.len() <= n,
                sol.routes.len() <= v,
                forall|k: int|
                    0 <= k < sol.routes.len() ==> problem.route_sound((#[trigger] sol.routes[k])@)
                        && problem.on_time_until_return(sol.routes[k].clients@)
                        && sol.routes[k].vehicle_id < v,
                forall|a: int, b: int|
                    0 <= a < b < sol.routes.len() ==> (#[trigger] sol.routes[a]).vehicle_id < (
                    #[trigger] sol.routes[b]).vehicle_id,
                forall|c: usize|
                    c < n && c != problem.source ==> #[trigger] visits(
                        route_ids(sol@.routes),
                        c,
                        sol.routes.len() as nat,
                    ) == visits(building_ids(opened), c, v as nat),
                sol.value == 0x8000_0000,
                sol.construction_value == 0,
                sol.distance == 0,
                sol.iter_found == 0,
            decreases fleet - v,
        {
            let vehicle = &problem.vehicles[v];
            proof {
                assert(vehicle_ok(problem.vehicles@[v as int], v as int));
                assert(problem.building(&opened[v as int], v as int));
                assert(vehicle_routes[v as int] == opened[v as int]);
            }
            let ghost done = sol@.routes;
            let ghost had = sol.routes@;
            /* the depot is always the first stop of a route */
            if vehicle_routes[vehicle.id].route.len() >= 2 {
                proof {
                    let g = opened[v as int];
                    assert(g.route@.last().client_id < n);
                    assert(g.route@.last().leave_time <= HORIZON - 2 * LIMIT);
                    problem.lemma_stop_bounds(
                        g.current_client_id as int,
                        problem.source as int,
                        g.current_time,
                    );
                    problem.lemma_totals_bounded(g.route@, g.route@.len());
                    assert(g.route@.len() * LIMIT <= MAX_STOPS * LIMIT) by (nonlinear_arith)
                        requires
                            g.route@.len() <= MAX_STOPS,
                    ;
                }
                vehicle_routes[vehicle.id].update(problem.source, problem);
                let vroute = &vehicle_routes[vehicle.id];
                proof {
                    problem.lemma_route_step(
                        &opened[v as int],
                        vroute,
                        v as int,
                        problem.source as int,
                    );
                    problem.lemma_totals_bounded(vroute.route@, vroute.route@.len());
                    assert(vroute.route@.len() * LIMIT <= MAX_STOPS * LIMIT) by (nonlinear_arith)
                        requires
                            vroute.route@.len() <= MAX_STOPS,
                    ;
                    assert(vroute.route_time * vehicle.variable_cost <= TIME_CAP * LIMIT)
                        by (nonlinear_arith)
                        requires
                            0 <= vroute.route_time <= TIME_CAP,
                            0 <= vehicle.variable_cost <= LIMIT,
                    ;
                }
                let clients = copy_stops(&vroute.route, 0, vroute.route.len());
                proof {
                    assert(clients@ =~= vroute.route@);
                }
                let route = RouteEntry {
                    vehicle_id: vroute.vehicle_id,
                    clients,
                    route_fixed_cost: vehicle.fixed_cost,
                    route_time: vroute.route_time,
                    route_variable_cost: (vroute.route_time as u128) * vehicle.variable_cost,
                    demand: vehicle.capacity - vroute.capacity_left,
                };
                proof {
                    problem.lemma_closed_sound(&opened[v as int], vroute, v as int, route@);
                }
                let ghost added = route@;
                sol.routes.push(route);
                proof {
                    assert(sol@.routes =~= done.push(added));
                    assert forall|k: int| 0 <= k < sol.routes.len() implies problem.route_sound(
                        (#[trigger] sol.routes[k])@,
                    ) && problem.on_time_until_return(sol.routes[k].clients@)
                        && sol.routes[k].vehicle_id < v + 1 by {
                        if k < had.len() {
                            assert(sol.routes[k] == had[k]);
                        }
                    }
                    assert forall|a: int, b: int|
                        0 <= a < b < sol.routes.len() implies (#[trigger] sol.routes[a]).vehicle_id
                        < (#[trigger] sol.routes[b]).vehicle_id by {
                        assert(sol.routes[a] == had[a]);
                        if b < had.len() {
                            assert(sol.routes[b] == had[b]);
                        }
                    }
                    assert forall|c: usize| c < n && c != problem.source implies #[trigger] visits(
                        route_ids(sol@.routes),
                        c,
                        sol.routes.len() as nat,
                    ) == visits(building_ids(opened), c, (v + 1) as nat) by {
                        lemma_visits_agree(
                            route_ids(sol@.routes),
                            route_ids(done),
                            c,
                            done.len(),
                        );
                        assert(visits(route_ids(done), c, done.len()) == visits(
                            building_ids(opened),
                            c,
                            v as nat,
                        ));
                        assert(route_ids(sol@.routes)[done.len() as int] == added.ids());
                        assert(building_ids(opened)[v as int] == stop_ids(opened[v as int].route@));
                        assert(count_in(added.ids(), c) == count_in(
                            stop_ids(opened[v as int].route@),
                            c,
                        ));
                    }
                }
            } else {
                proof {
                    assert forall|c: usize| c < n && c != problem.source implies #[trigger] visits(
                        route_ids(sol@.routes),
                        c,
                        sol.routes.len() as nat,
                    ) == visits(building_ids(opened), c, (v + 1) as nat) by {
                        assert(visits(route_ids(done), c, done.len()) == visits(
                            building_ids(opened),
                            c,
                            v as nat,
                        ));
                        let g = opened[v as int];
                        assert(stop_ids(g.route@) =~= Seq::<usize>::empty().push(problem.source));
                        lemma_count_empty(c);
                        lemma_count_push(Seq::<usize>::empty(), problem.source, c);
                    }
                }
            }
            v += 1;
        }
        proof {
            assert forall|k: int| 0 <= k < sol@.routes.len() implies problem.route_sound(
                #[trigger] sol@.routes[k],
            ) && problem.on_time_until_return(sol@.routes[k].clients) by {
                assert(problem.route_sound(sol.routes[k]@));
            }
            assert forall|a: int, b: int| 0 <= a < b < sol@.routes.len() implies (
            #[trigger] sol@.routes[a]).vehicle_id != (#[trigger] sol@.routes[b]).vehicle_id by {
                assert(sol.routes[a].vehicle_id < sol.routes[b].vehicle_id);
            }
            problem.lemma_solution_fits(sol@);
            assert forall|c: usize| c < n && c != problem.source implies #[trigger] visits(
                route_ids(sol@.routes),
                c,
                sol@.routes.len(),
            ) == 1 by {
                assert(visits(building_ids(opened), c, fleet) == 1);
            }
        }

        problem.evaluate_sol(&mut sol);
        sol.construction_value = sol.value;

        Ok(sol)
    }
}

} // verus!
