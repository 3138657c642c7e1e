use vstd::prelude::*;
use super::others::{Cost, RouteEntry, RouteModel, Time};

verus! {

/// A set of routes with its evaluated objective.
#[derive(Debug, PartialEq, Eq)]
pub struct Solution {
    pub routes: Vec<RouteEntry>,
    /// The evaluated objective: the total cost of the routes.
    pub value: Cost,
    /// The objective as it was after construction, before any local search.
    pub construction_value: Cost,
    /// The total time of the routes.
    pub distance: Time,
    /// The iteration at which a worker found this solution, counted by the
    /// iterations that were still to come.
    pub iter_found: i32,
}

/// What a solution is, as a mathematical value.
pub struct SolutionModel {
    pub routes: Seq<RouteModel>,
    pub value: Cost,
    pub construction_value: Cost,
    pub distance: Time,
    pub iter_found: i32,
}

/// The models of a list of routes, in order.
pub open spec fn route_models(routes: Seq<RouteEntry>) -> Seq<RouteModel> {
    Seq::new(routes.len(), |k: int| routes[k]@)
}

/// The total cost of the first `k` routes.
pub open spec fn total_cost(routes: Seq<RouteModel>, k: nat) -> int
    decreases k,
{
    if k == 0 {
        0
    } else {
        total_cost(routes, (k - 1) as nat) + routes[k - 1].route_cost()
    }
}

/// The total time of the first `k` routes.
pub open spec fn total_time(routes: Seq<RouteModel>, k: nat) -> int
    decreases k,
{
    if k == 0 {
        0
    } else {
        total_time(routes, (k - 1) as nat) + routes[k - 1].route_time
    }
}

impl SolutionModel {
    /// The total cost of all routes.
    pub open spec fn cost(self) -> int {
        total_cost(self.routes, self.routes.len())
    }

    /// The total time of all routes.
    pub open spec fn time(self) -> int {
        total_time(self.routes, self.routes.len())
    }

    /// The objective is the total cost of the routes and the distance their
    /// total time.
    pub open spec fn evaluated(self) -> bool {
        self.value == self.cost() && self.distance == self.time()
    }
}

impl View for Solution {
    type V = SolutionModel;

    open spec fn view(&self) -> SolutionModel {
        SolutionModel {
            routes: route_models(self.routes@),
            value: self.value,
            construction_value: self.construction_value,
            distance: self.distance,
            iter_found: self.iter_found,
        }
    }
}

impl Default for Solution {
    /// The solution without routes, with the value 2^31.
    fn default() -> (r: Solution)
        ensures
            r@ == (SolutionModel {
                routes: Seq::empty(),
                value: 0x8000_0000,
                construction_value: 0,
                distance: 0,
                iter_found: 0,
            }),
    {
        let r = Solution {
            routes: Vec::new(),
            distance: 0,
            value: 0x8000_0000,
            construction_value: 0,
            iter_found: 0,
        };
        proof {
            assert(r@.routes =~= Seq::empty());
        }
        r
    }
}

impl Clone for Solution {
    /// A copy of the solution.
    fn clone(&self) -> (r: Solution)
        ensures
            r@ == self@,
    {
        let mut routes: Vec<RouteEntry> = Vec::new();
        let mut i: usize = 0;
        while i < self.routes.len()
            invariant
                i <= self.routes.len(),
                routes.len() == i,
                forall|k: int| 0 <= k < i ==> routes[k]@ == self.routes[k]@,
            decreases self.routes.len() - i,
        {
            routes.push(self.routes[i].clone());
            i += 1;
        }
        let r = Solution {
            routes,
            value: self.value,
            construction_value: self.construction_value,
            distance: self.distance,
            iter_found: self.iter_found,
        };
        proof {
            assert(r@.routes =~= self@.routes);
        }
        r
    }
}

impl Solution {
    /// The total time of the routes.
    pub fn total_route_time(&self) -> (r: Time)
        requires
            self@.time() <= u64::MAX,
        ensures
            r == self@.time(),
    {
        let mut total: Time = 0;
        let mut i: usize = 0;
        proof {
            lemma_total_time_grows(self@.routes, 0, self.routes.len() as nat);
        }
        while i < self.routes.len()
            invariant
                i <= self.routes.len(),
                total == total_time(self@.routes, i as nat),
                self@.time() <= u64::MAX,
            decreases self.routes.len() - i,
        {
            proof {
                lemma_total_time_grows(self@.routes, (i + 1) as nat, self.routes.len() as nat);
            }
            total = total + self.routes[i].route_time;
            i += 1;
        }
        total
    }
}

/// The total time of a prefix is at most that of a longer prefix.
pub proof fn lemma_total_time_grows(routes: Seq<RouteModel>, k: nat, m: nat)
    requires
        k <= m,
    ensures
        0 <= total_time(routes, k) <= total_time(routes, m),
    decreases m,
{
    if k == 0 && m == 0 {
    } else if k < m {
        lemma_total_time_grows(routes, k, (m - 1) as nat);
    } else {
        lemma_total_time_grows(routes, (k - 1) as nat, (m - 1) as nat);
    }
}

/// The total cost of a prefix is at most that of a longer prefix.
pub proof fn lemma_total_cost_grows(routes: Seq<RouteModel>, k: nat, m: nat)
    requires
        k <= m,
    ensures
        0 <= total_cost(routes, k) <= total_cost(routes, m),
    decreases m,
{
    if k == 0 && m == 0 {
    } else if k < m {
        lemma_total_cost_grows(routes, k, (m - 1) as nat);
    } else {
        lemma_total_cost_grows(routes, (k - 1) as nat, (m - 1) as nat);
    }
}

} // verus!
