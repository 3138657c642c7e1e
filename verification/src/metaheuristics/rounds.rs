use vstd::prelude::*;
use super::grasp::Grasp;
use super::invariants::rebuilt;
use super::local_search::before;
use super::opt2_search::{chosen, PairStep};
use crate::types::others::{Cost, RouteModel};
use crate::types::problem_instance::ProblemInstance;
use crate::types::solution::SolutionModel;

verus! {

impl Grasp {
    /// What the move of a round answers for a pair of stops of two routes:
    /// the insertion of as many clients as the search is set to move, or
    /// the exchange of tails.
    pub open spec fn step_of(
        &self,
        problem: &ProblemInstance,
        insertion: bool,
        r1: RouteModel,
        r2: RouteModel,
    ) -> PairStep {
        if insertion {
            problem.insertion_steps(r1, r2, self.config.insertion_search_sequence_length as int)
        } else {
            problem.opt2_steps(r1, r2)
        }
    }

    /// Whether the move of a round takes the first pair of stops that it
    /// can, not the best.
    pub open spec fn takes_first(&self, insertion: bool) -> bool {
        if insertion {
            self.config.insertion_search_first_improvement
        } else {
            self.config.opt2_search_first_improvement
        }
    }

    /// `new` is `sol` after the move at the stops `(i, j)` of its routes
    /// `a` and `b`, and these are the stops that the move picks for the two
    /// routes.
    pub open spec fn answer_at(
        &self,
        problem: &ProblemInstance,
        insertion: bool,
        sol: SolutionModel,
        a: int,
        b: int,
        new: SolutionModel,
        i: int,
        j: int,
    ) -> bool {
        let step = self.step_of(problem, insertion, sol.routes[a], sol.routes[b]);
        &&& step(i, j) is Some
        &&& chosen(
            step,
            sol.routes[a].clients.len() as int,
            sol.routes[b].clients.len() as int,
            self.takes_first(insertion),
            step(i, j).unwrap(),
            i,
            j,
        )
        &&& new == rebuilt(sol, step(i, j).unwrap())
    }

    /// `new` is what the move answers for the routes `a` and `b` of `sol`:
    /// they are routes of two vehicles, and `new` is `sol` after the move
    /// at the stops that the move picks for them.
    pub open spec fn answer(
        &self,
        problem: &ProblemInstance,
        insertion: bool,
        sol: SolutionModel,
        a: int,
        b: int,
        new: SolutionModel,
    ) -> bool {
        &&& sol.routes[a].vehicle_id != sol.routes[b].vehicle_id
        &&& exists|i: int, j: int| #[trigger] self.answer_at(problem, insertion, sol, a, b, new, i, j)
    }

    /// The move has no answer for the routes `a` and `b` of `sol`: they
    /// are routes of one vehicle, or the move can be made at no pair of
    /// their stops.
    pub open spec fn refused(
        &self,
        problem: &ProblemInstance,
        insertion: bool,
        sol: SolutionModel,
        a: int,
        b: int,
    ) -> bool {
        sol.routes[a].vehicle_id == sol.routes[b].vehicle_id || (if insertion {
            problem.no_insertion(
                sol.routes[a],
                sol.routes[b],
                self.config.insertion_search_sequence_length as int,
            )
        } else {
            problem.no_exchange(sol.routes[a], sol.routes[b])
        })
    }

    /// The move has no answer for the routes `a` and `b` of `sol`, or an
    /// answer of a value that is not under `bound`, and is over it where
    /// `strict` is set.
    pub open spec fn no_better(
        &self,
        problem: &ProblemInstance,
        insertion: bool,
        sol: SolutionModel,
        a: int,
        b: int,
        bound: Cost,
        strict: bool,
    ) -> bool {
        self.refused(problem, insertion, sol, a, b) || exists|other: SolutionModel|
            #[trigger] self.answer(problem, insertion, sol, a, b, other) && bound <= other.value && (
            strict ==> bound < other.value)
    }

    /// `new` is what a round makes of `sol`, by the answer of the move for
    /// the routes `a` and `b`: where the search takes the first
    /// improvement, the move has no answer for any pair of routes tried
    /// before; else no answer has less value, and none for a pair tried
    /// before has the same.
    pub open spec fn round_at(
        &self,
        problem: &ProblemInstance,
        insertion: bool,
        sol: SolutionModel,
        new: SolutionModel,
        a: int,
        b: int,
    ) -> bool {
        &&& 0 <= a < sol.routes.len()
        &&& 0 <= b < sol.routes.len()
        &&& self.answer(problem, insertion, sol, a, b, new)
        &&& self.config.local_search_first_improvement ==> forall|x: int, y: int|
            0 <= x < sol.routes.len() && 0 <= y < sol.routes.len() && before(x, y, a, b)
                ==> #[trigger] self.refused(problem, insertion, sol, x, y)
        &&& !self.config.local_search_first_improvement ==> forall|x: int, y: int|
            0 <= x < sol.routes.len() && 0 <= y < sol.routes.len() ==> #[trigger] self.no_better(
                problem,
                insertion,
                sol,
                x,
                y,
                new.value,
                before(x, y, a, b),
            )
    }

    /// `new` is what a round of the move makes of `sol`.
    pub open spec fn round(
        &self,
        problem: &ProblemInstance,
        insertion: bool,
        sol: SolutionModel,
        new: SolutionModel,
    ) -> bool {
        exists|a: int, b: int| #[trigger] self.round_at(problem, insertion, sol, new, a, b)
    }

    /// A round finds nothing in `sol`: the move has no answer for any two
    /// of its routes.
    pub open spec fn nothing_found(
        &self,
        problem: &ProblemInstance,
        insertion: bool,
        sol: SolutionModel,
    ) -> bool {
        forall|a: int, b: int|
            0 <= a < sol.routes.len() && 0 <= b < sol.routes.len() ==> #[trigger] self.refused(
                problem,
                insertion,
                sol,
                a,
                b,
            )
    }

    /// What one of the two parts of a pass makes of `sol`: where the move
    /// is not enabled, nothing, and the search goes on; else what a round
    /// of the move makes of it, or nothing where the round finds nothing,
    /// and then the search is to stop.
    pub open spec fn part(
        &self,
        problem: &ProblemInstance,
        insertion: bool,
        sol: SolutionModel,
        new: SolutionModel,
        stop: bool,
    ) -> bool {
        let enabled = if insertion {
            self.config.insertion_search_enabled
        } else {
            self.config.opt2_search_enabled
        };
        if !enabled {
            new == sol && !stop
        } else if stop {
            new == sol && self.nothing_found(problem, insertion, sol)
        } else {
            self.round(problem, insertion, sol, new)
        }
    }

    /// What one pass makes of `sol`: a round of exchanges makes `mid` of
    /// it, and a round of insertions makes `new` of `mid`; the search is
    /// to stop if one of them finds nothing.
    pub open spec fn pass(
        &self,
        problem: &ProblemInstance,
        sol: SolutionModel,
        mid: SolutionModel,
        new: SolutionModel,
        stop: bool,
    ) -> bool {
        exists|stop1: bool, stop2: bool|
            #![trigger self.part(problem, false, sol, mid, stop1), self.part(problem, true, mid, new, stop2)]
            self.part(problem, false, sol, mid, stop1) && self.part(problem, true, mid, new, stop2)
                && stop == (stop1 || stop2)
    }

    /// `result` is what the local search makes of `sol` in at most
    /// `rounds` passes: pass follows pass until one is to stop or the
    /// passes are used up.
    pub open spec fn searched(
        &self,
        problem: &ProblemInstance,
        sol: SolutionModel,
        result: SolutionModel,
        rounds: int,
    ) -> bool
        decreases rounds,
    {
        if rounds <= 0 {
            result == sol
        } else {
            exists|mid: SolutionModel, new: SolutionModel, stop: bool| #[trigger]
                self.pass(problem, sol, mid, new, stop) && (if stop {
                    result == new
                } else {
                    self.searched(problem, new, result, rounds - 1)
                })
        }
    }

    /// What a round makes of a solution comes from it by an exchange of
    /// tails, or by an insertion.
    pub proof fn lemma_round_is_step(
        &self,
        problem: &ProblemInstance,
        insertion: bool,
        sol: SolutionModel,
        new: SolutionModel,
    )
        requires
            self.round(problem, insertion, sol, new),
        ensures
            !insertion ==> problem.exchanged(sol, new),
            insertion ==> problem.inserted_into(
                sol,
                new,
                self.config.insertion_search_sequence_length as int,
            ),
    {
        let (a, b) = choose|a: int, b: int| #[trigger] self.round_at(problem, insertion, sol, new, a, b);
        let (i, j) = choose|i: int, j: int| #[trigger]
            self.answer_at(problem, insertion, sol, a, b, new, i, j);
        if insertion {
            let len = self.config.insertion_search_sequence_length as int;
            assert(problem.insertion_from(sol, new, len, a, b, i, j));
            assert(problem.insertion_between(sol, new, len, a, b));
        } else {
            assert(problem.exchange_from(sol, new, a, b, i, j));
            assert(problem.exchange_between(sol, new, a, b));
        }
    }
}

} // verus!
