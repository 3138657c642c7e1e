use vstd::prelude::*;
use crate::metaheuristics::grasp::Grasp;
use crate::types::config::Config;
use crate::types::problem_instance::ProblemInstance;
use crate::types::solution::{Solution, SolutionModel};

verus! {

/// What holds of every solution that a worker hands back: it is as the
/// search keeps it, its value is at most its value after construction, it
/// was found in one of the worker's iterations, and, where every visit
/// costs something, it visits every client but the depot exactly once.
pub open spec fn worker_result(config: &Config, instance: &ProblemInstance, sol: Solution) -> bool {
    &&& sol.wf(instance)
    &&& instance.sound(sol@)
    &&& sol.value <= sol.construction_value
    &&& 0 <= sol.iter_found < config.iters
    &&& instance.pays_for_visits() ==> instance.covers(sol@)
}

/// The better of the best so far and a new solution: the new one if there
/// is none so far or if it costs less, else the best so far.
pub open spec fn better_of(best: Option<SolutionModel>, sol: SolutionModel) -> SolutionModel {
    match best {
        None => sol,
        Some(current) => if current.value > sol.value {
            sol
        } else {
            current
        },
    }
}

/// Keeps the better of the best solution so far and a new one; of two that
/// cost the same, the one so far.
pub fn keep_better(best: Option<Solution>, sol: Solution) -> (r: Solution)
    ensures
        r@ == better_of(
            match best {
                Some(current) => Some(current@),
                None => None,
            },
            sol@,
        ),
        r == sol || best == Some(r),
{
    match best {
        None => sol,
        Some(current) => {
            if current.value > sol.value {
                sol
            } else {
                current
            }
        },
    }
}

/// `results[k]` is the solution that the reduction picks: it costs no more
/// than any other, and less than those after it.
pub open spec fn is_best(results: Seq<Option<Solution>>, k: int) -> bool {
    &&& 0 <= k < results.len()
    &&& results[k] is Some
    &&& forall|j: int|
        0 <= j < results.len() && (#[trigger] results[j]) is Some ==> results[k].unwrap().value
            <= results[j].unwrap().value && (j > k ==> results[k].unwrap().value
            < results[j].unwrap().value)
}

/// The best of the workers' results: the solution of least value, and of
/// those the last; nothing if no worker has a solution.
pub fn best_of(results: Vec<Option<Solution>>) -> (r: Option<Solution>)
    ensures
        match r {
            None => forall|j: int| 0 <= j < results.len() ==> (#[trigger] results[j]) is None,
            Some(sol) => exists|k: int| #[trigger] is_best(results@, k) && results[k] == Some(sol),
        },
{
    let mut results = results;
    let ghost all = results@;
    if results.is_empty() {
        return None;
    }
    let mut ret = results.pop().unwrap();
    let ghost mut at: int = all.len() - 1;
    while !results.is_empty()
        invariant
            results@ == all.take(results.len() as int),
            results.len() < all.len(),
            ret is None ==> forall|j: int| results.len() <= j < all.len() ==> (#[trigger] all[j]) is None,
            ret is Some ==> results.len() <= at < all.len() && all[at] == ret && forall|j: int|
                results.len() <= j < all.len() && (#[trigger] all[j]) is Some
                    ==> ret.unwrap().value <= all[j].unwrap().value && (j > at
                    ==> ret.unwrap().value < all[j].unwrap().value),
        decreases results.len(),
    {
        let current = results.pop().unwrap();
        let ghost here = results.len() as int;
        assert(current == all[here]);
        if ret.is_none() {
            ret = current;
            proof {
                at = here;
            }
        } else if current.is_some() {
            let replace = {
                let s1 = ret.as_ref().unwrap();
                let s2 = current.as_ref().unwrap();
                s2.value < s1.value
            };
            if replace {
                ret = current;
                proof {
                    at = here;
                }
            }
        }
        proof {
            assert(results@ =~= all.take(results.len() as int));
        }
    }
    proof {
        if ret is Some {
            assert(is_best(all, at) && all[at] == ret);
        }
    }
    ret
}

/// What a worker hands back: the best solution of its iterations, the
/// number of iterations that found no solution, and what the last of these
/// said.
#[derive(Debug, PartialEq, Eq)]
pub struct WorkerReport {
    pub best: Option<Solution>,
    pub error_count: i32,
    pub last_error: String,
}

/// What holds of every report of a worker: a best solution is as
/// `worker_result` says; there is one exactly if some iteration found a
/// solution; and the last error is what an iteration without a solution
/// says, or empty if there was none.
pub open spec fn worker_report(config: &Config, instance: &ProblemInstance, report: WorkerReport) -> bool {
    &&& report.best is Some ==> worker_result(config, instance, report.best.unwrap())
    &&& 0 <= report.error_count <= config.iters
    &&& report.best is None <==> report.error_count == config.iters
    &&& report.last_error@ == (if report.error_count == 0 {
        ""@
    } else {
        "Couldn't find a feasible solution"@
    })
}

/// The iterations of one worker: each builds a solution and improves it,
/// and the best of them is kept, with the number of iterations that were
/// still to come when it was found. Iterations that find no solution are
/// counted and passed over.
pub fn work(config: &Config, instance: &ProblemInstance) -> (r: WorkerReport)
    requires
        instance.wf(),
        config.grasp_config.wf(),
        config.iters >= 0,
    ensures
        worker_report(config, instance, r),
        instance.clients.len() == 1 || (Grasp { config: config.grasp_config }).always_builds(
            instance,
        ) ==> r.error_count == 0,
        Grasp::never_builds(instance) ==> r.error_count == config.iters,
{
    let mut iteration = config.iters;
    let mut best: Option<Solution> = None;
    let mh: Grasp = Grasp { config: config.grasp_config };
    let mut error_count: i32 = 0;
    let mut last_error: String = "".to_owned();

    while iteration != 0
        invariant
            instance.wf(),
            mh.config == config.grasp_config,
            mh.config.wf(),
            0 <= iteration <= config.iters,
            0 <= error_count <= config.iters - iteration,
            best is Some ==> worker_result(config, instance, best.unwrap()),
            best is None <==> error_count == config.iters - iteration,
            last_error@ == (if error_count == 0 {
                ""@
            } else {
                "Couldn't find a feasible solution"@
            }),
            instance.clients.len() == 1 || mh.always_builds(instance) ==> error_count == 0,
            Grasp::never_builds(instance) ==> error_count == config.iters - iteration,
        decreases iteration,
    {
        iteration -= 1;
        let current_iter = iteration;

        match mh.iterate(instance) {
            Err(error) => {
                last_error = error;
                error_count += 1;
            },
            Ok(mut value) => {
                value.iter_found = current_iter;
                best = Some(keep_better(best, value));
            },
        }
    }
    WorkerReport { best, error_count, last_error }
}

/// The best solution of the iterations of one worker; nothing if none of
/// them found a solution.
pub fn do_run(config: &Config, instance: &ProblemInstance) -> (r: Option<Solution>)
    requires
        instance.wf(),
        config.grasp_config.wf(),
        config.iters >= 0,
    ensures
        r is Some ==> worker_result(config, instance, r.unwrap()),
        config.iters == 0 || Grasp::never_builds(instance) ==> r is None,
        config.iters > 0 && (instance.clients.len() == 1 || (Grasp {
            config: config.grasp_config,
        }).always_builds(instance)) ==> r is Some,
{
    work(config, instance).best
}

/// The function `scope` of `crossbeam` with one scoped thread for each
/// worker, each of which calls `work`, and `join` on each of them: the
/// reports of the workers that came to an end, at most one for each
/// worker, each as `work` hands it back.
#[verifier::external_body]
fn run_workers(config: &Config, instance: &ProblemInstance) -> (reports: Vec<WorkerReport>)
    requires
        instance.wf(),
        config.grasp_config.wf(),
        config.iters >= 0,
    ensures
        reports.len() <= config.number_of_threads || reports.len() == 0,
        forall|k: int|
            0 <= k < reports.len() ==> worker_report(config, instance, #[trigger] reports[k]),
        Grasp::never_builds(instance) ==> forall|k: int|
            0 <= k < reports.len() ==> (#[trigger] reports[k]).best is None,
{
    let mut reports = vec![];
    crossbeam::scope(|s| {
        let mut handlers = vec![];
        for _ in 0..config.number_of_threads {
            handlers.push(s.spawn(move |_| work(config, instance)));
        }
        for handle in handlers {
            if let Ok(report) = handle.join() {
                reports.push(report);
            }
        }
    }).unwrap();
    reports
}

/// The best solutions of the reports, in their order.
pub fn bests(reports: Vec<WorkerReport>) -> (r: Vec<Option<Solution>>)
    ensures
        r.len() == reports.len(),
        forall|k: int| 0 <= k < r.len() ==> #[trigger] r[k] == reports[k].best,
{
    let mut reports = reports;
    let ghost all = reports@;
    let mut reversed: Vec<Option<Solution>> = Vec::new();
    while reports.len() > 0
        invariant
            reports@ == all.take(reports.len() as int),
            reversed.len() + reports.len() == all.len(),
            forall|k: int|
                0 <= k < reversed.len() ==> #[trigger] reversed[k] == all[all.len() - 1 - k].best,
        decreases reports.len(),
    {
        let report = reports.pop().unwrap();
        reversed.push(report.best);
        proof {
            assert(reports@ =~= all.take(reports.len() as int));
        }
    }
    let mut r: Vec<Option<Solution>> = Vec::new();
    while reversed.len() > 0
        invariant
            reversed.len() + r.len() == all.len(),
            forall|k: int|
                0 <= k < reversed.len() ==> #[trigger] reversed[k] == all[all.len() - 1 - k].best,
            forall|k: int| 0 <= k < r.len() ==> #[trigger] r[k] == all[k].best,
        decreases reversed.len(),
    {
        let best = reversed.pop().unwrap();
        r.push(best);
    }
    r
}

/// Runs the workers, each on a thread of its own, and returns the best of
/// their solutions: none of them has a solution of less value. Returns
/// nothing if no worker has a solution.
pub fn run(config: &Config, instance: &ProblemInstance) -> (r: Option<Solution>)
    requires
        instance.wf(),
        config.grasp_config.wf(),
        config.iters >= 0,
    ensures
        exists|reports: Seq<WorkerReport>| #[trigger] reduced(config, instance, reports, r),
        r is Some ==> worker_result(config, instance, r.unwrap()),
        config.iters == 0 || config.number_of_threads <= 0 || Grasp::never_builds(instance)
            ==> r is None,
{
    let reports = run_workers(config, instance);
    let ghost given = reports@;
    let results = bests(reports);
    let ghost all = results@;
    let best = best_of(results);
    proof {
        if best is Some {
            let k = choose|k: int| #[trigger] is_best(all, k) && all[k] == best;
            assert(all[k] is Some);
            assert(worker_report(config, instance, given[k]));
            assert(is_best_report(given, k)) by {
                assert forall|j: int| 0 <= j < given.len() && (#[trigger] given[j]).best
                    is Some implies given[k].best.unwrap().value <= given[j].best.unwrap().value && (
                j > k ==> given[k].best.unwrap().value < given[j].best.unwrap().value) by {
                    assert(all[j] == given[j].best);
                }
            }
        } else {
            assert forall|j: int| 0 <= j < given.len() implies (#[trigger] given[j]).best is None by {
                assert(all[j] == given[j].best);
            }
        }
        assert(reduced(config, instance, given, best));
        if (config.iters == 0 || Grasp::never_builds(instance)) && best is Some {
            let k = choose|k: int| #[trigger] is_best(all, k) && all[k] == best;
            assert(worker_report(config, instance, given[k]));
            assert(given[k].best is Some);
        }
    }
    best
}

/// The report `k` holds the solution that the run keeps: no report holds
/// one of less value, and none after it holds one of the same value.
pub open spec fn is_best_report(reports: Seq<WorkerReport>, k: int) -> bool {
    &&& 0 <= k < reports.len()
    &&& reports[k].best is Some
    &&& forall|j: int|
        0 <= j < reports.len() && (#[trigger] reports[j]).best is Some
            ==> reports[k].best.unwrap().value <= reports[j].best.unwrap().value && (j > k
            ==> reports[k].best.unwrap().value < reports[j].best.unwrap().value)
}

/// `r` is what a run makes of the reports of its workers: there is at most
/// one report for each worker, each as a worker hands it back, and `r` is
/// the solution of least value that a report holds, and of those the last,
/// or nothing if no report holds a solution.
pub open spec fn reduced(
    config: &Config,
    instance: &ProblemInstance,
    reports: Seq<WorkerReport>,
    r: Option<Solution>,
) -> bool {
    &&& reports.len() <= config.number_of_threads || reports.len() == 0
    &&& forall|k: int| 0 <= k < reports.len() ==> worker_report(config, instance, #[trigger] reports[k])
    &&& match r {
        None => forall|k: int| 0 <= k < reports.len() ==> (#[trigger] reports[k]).best is None,
        Some(sol) => exists|k: int| #[trigger] is_best_report(reports, k) && reports[k].best == Some(sol),
    }
}

} // verus!
