use vstd::prelude::*;
use crate::types::others::Cost;

verus! {

/// A search over all pairs of items of two lists, for the first pair or for
/// the best pair that a given move accepts.
#[derive(Debug, Clone, Copy)]
pub struct LocalSearch {
    /// Whether the search ends at the first pair that the move accepts.
    pub first_improvement: bool,
}

/// The answer of a move that a pair does not admit.
#[derive(Debug, Clone, Copy)]
pub struct LocalSearchNotFound;

/// Pair `(i1, j1)` is tried before pair `(i2, j2)`.
pub open spec fn before(i1: int, j1: int, i2: int, j2: int) -> bool {
    i1 < i2 || (i1 == i2 && j1 < j2)
}

/// The move may have refused the pair `(i, j)`.
pub open spec fn fails_at<T, S, F: Fn(usize, &T, usize, &T) -> Result<(S, Cost), LocalSearchNotFound>>(
    search: F,
    values1: Seq<T>,
    values2: Seq<T>,
    i: int,
    j: int,
) -> bool {
    call_ensures(search, (i as usize, &values1[i], j as usize, &values2[j]), Err(LocalSearchNotFound))
}

/// The move may have answered `s` at cost `c` for the pair `(i, j)`.
pub open spec fn yields_at<T, S, F: Fn(usize, &T, usize, &T) -> Result<(S, Cost), LocalSearchNotFound>>(
    search: F,
    values1: Seq<T>,
    values2: Seq<T>,
    i: int,
    j: int,
    s: S,
    c: Cost,
) -> bool {
    call_ensures(search, (i as usize, &values1[i], j as usize, &values2[j]), Ok((s, c)))
}

/// The move may have refused the pair `(i, j)`, or answered at a cost that
/// is not under `bound`, and is over it where `strict` is set.
pub open spec fn no_better_at<T, S, F: Fn(usize, &T, usize, &T) -> Result<(S, Cost), LocalSearchNotFound>>(
    search: F,
    values1: Seq<T>,
    values2: Seq<T>,
    i: int,
    j: int,
    bound: Cost,
    strict: bool,
) -> bool {
    fails_at(search, values1, values2, i, j) || exists|s: S, c: Cost|
        #[trigger] yields_at(search, values1, values2, i, j, s, c) && bound <= c && (strict ==> bound
            < c)
}

/// `s` is the answer for the pair `(i, j)` at cost `c`, and the search was
/// right to pick it: with `first_improvement`, every pair tried before was
/// refused; without, no pair has an answer that costs less, and none tried
/// before has one that costs the same.
pub open spec fn picked<T, S, F: Fn(usize, &T, usize, &T) -> Result<(S, Cost), LocalSearchNotFound>>(
    search: F,
    values1: Seq<T>,
    values2: Seq<T>,
    first_improvement: bool,
    s: S,
    i: int,
    j: int,
    c: Cost,
) -> bool {
    &&& 0 <= i < values1.len()
    &&& 0 <= j < values2.len()
    &&& yields_at(search, values1, values2, i, j, s, c)
    &&& first_improvement ==> forall|a: int, b: int|
        0 <= a < values1.len() && 0 <= b < values2.len() && before(a, b, i, j) ==> #[trigger] fails_at(
            search,
            values1,
            values2,
            a,
            b,
        )
    &&& !first_improvement ==> forall|a: int, b: int|
        0 <= a < values1.len() && 0 <= b < values2.len() ==> #[trigger] no_better_at(
            search,
            values1,
            values2,
            a,
            b,
            c,
            before(a, b, i, j),
        )
}

impl LocalSearch {
    /// A search with the given policy.
    pub fn new(first_improvement: bool) -> (r: Self)
        ensures
            r.first_improvement == first_improvement,
    {
        Self { first_improvement }
    }

    /// Tries the move on every pair of an item of `values1` and an item of
    /// `values2`, row by row. Returns nothing if the move refuses every
    /// pair; else the first answer, with `first_improvement`, or the first
    /// of the answers of least cost.
    pub fn iterate<T, S, Func: Fn(usize, &T, usize, &T) -> Result<(S, Cost), LocalSearchNotFound>>(
        &self,
        values1: &Vec<T>,
        values2: &Vec<T>,
        search: Func,
    ) -> (r: Option<S>)
        requires
            forall|i: int, j: int|
                0 <= i < values1.len() && 0 <= j < values2.len() ==> call_requires(
                    search,
                    (i as usize, &values1[i], j as usize, &values2[j]),
                ),
        ensures
            match r {
                None => forall|i: int, j: int|
                    0 <= i < values1.len() && 0 <= j < values2.len() ==> #[trigger] fails_at(
                        search,
                        values1@,
                        values2@,
                        i,
                        j,
                    ),
                Some(s) => exists|i: int, j: int, c: Cost| #[trigger]
                    picked(search, values1@, values2@, self.first_improvement, s, i, j, c),
            },
    {
        let mut ret: Option<S> = None;
        let mut best_value: Cost = 0;
        let ghost mut bi: int = 0;
        let ghost mut bj: int = 0;

        let mut index1: usize = 0;
        while index1 < values1.len()
            invariant
                index1 <= values1.len(),
                forall|i: int, j: int|
                    0 <= i < values1.len() && 0 <= j < values2.len() ==> call_requires(
                        search,
                        (i as usize, &values1[i], j as usize, &values2[j]),
                    ),
                ret is None ==> forall|a: int, b: int|
                    0 <= a < index1 && 0 <= b < values2.len() ==> #[trigger] fails_at(
                        search,
                        values1@,
                        values2@,
                        a,
                        b,
                    ),
                ret is Some ==> {
                    &&& !self.first_improvement
                    &&& 0 <= bi < index1
                    &&& 0 <= bj < values2.len()
                    &&& yields_at(search, values1@, values2@, bi, bj, ret.unwrap(), best_value)
                    &&& forall|a: int, b: int|
                        0 <= a < index1 && 0 <= b < values2.len() ==> #[trigger] no_better_at(
                            search,
                            values1@,
                            values2@,
                            a,
                            b,
                            best_value,
                            before(a, b, bi, bj),
                        )
                },
            decreases values1.len() - index1,
        {
            let mut index2: usize = 0;
            while index2 < values2.len()
                invariant
                    index1 < values1.len(),
                    index2 <= values2.len(),
                    forall|i: int, j: int|
                        0 <= i < values1.len() && 0 <= j < values2.len() ==> call_requires(
                            search,
                            (i as usize, &values1[i], j as usize, &values2[j]),
                        ),
                    ret is None ==> forall|a: int, b: int|
                        0 <= a < values1.len() && 0 <= b < values2.len() && before(
                            a,
                            b,
                            index1 as int,
                            index2 as int,
                        ) ==> #[trigger] fails_at(search, values1@, values2@, a, b),
                    ret is Some ==> {
                        &&& !self.first_improvement
                        &&& 0 <= bi < values1.len()
                        &&& 0 <= bj < values2.len()
                        &&& before(bi, bj, index1 as int, index2 as int)
                        &&& yields_at(search, values1@, values2@, bi, bj, ret.unwrap(), best_value)
                        &&& forall|a: int, b: int|
                            0 <= a < values1.len() && 0 <= b < values2.len() && before(
                                a,
                                b,
                                index1 as int,
                                index2 as int,
                            ) ==> #[trigger] no_better_at(
                                search,
                                values1@,
                                values2@,
                                a,
                                b,
                                best_value,
                                before(a, b, bi, bj),
                            )
                    },
                decreases values2.len() - index2,
            {
                let result = search(index1, &values1[index1], index2, &values2[index2]);
                let ghost old_best = best_value;
                let ghost old_bi = bi;
                let ghost old_bj = bj;
                let ghost had = ret is Some;
                match result {
                    Ok((current_sol, current_value)) => {
                        let ghost found = current_sol;
                        assert(yields_at(
                            search,
                            values1@,
                            values2@,
                            index1 as int,
                            index2 as int,
                            found,
                            current_value,
                        ));
                        if current_value < best_value || ret.is_none() {
                            ret = Some(current_sol);
                            proof {
                                bi = index1 as int;
                                bj = index2 as int;
                            }
                            if self.first_improvement {
                                proof {
                                    assert(ret.unwrap() == found);
                                    assert(picked(
                                        search,
                                        values1@,
                                        values2@,
                                        self.first_improvement,
                                        ret.unwrap(),
                                        bi,
                                        bj,
                                        current_value,
                                    ));
                                }
                                return ret;
                            }
                            best_value = current_value;
                            proof {
                                assert forall|a: int, b: int|
                                    0 <= a < values1.len() && 0 <= b < values2.len() && before(
                                        a,
                                        b,
                                        index1 as int,
                                        index2 + 1,
                                    ) implies #[trigger] no_better_at(
                                    search,
                                    values1@,
                                    values2@,
                                    a,
                                    b,
                                    best_value,
                                    before(a, b, bi, bj),
                                ) by {
                                    if a == index1 && b == index2 {
                                    } else if had {
                                        assert(no_better_at(
                                            search,
                                            values1@,
                                            values2@,
                                            a,
                                            b,
                                            old_best,
                                            before(a, b, old_bi, old_bj),
                                        ));
                                        if !fails_at(search, values1@, values2@, a, b) {
                                            let (s, c) = choose|s: S, c: Cost|
                                                #[trigger] yields_at(
                                                    search,
                                                    values1@,
                                                    values2@,
                                                    a,
                                                    b,
                                                    s,
                                                    c,
                                                ) && old_best <= c && (before(a, b, old_bi, old_bj)
                                                    ==> old_best < c);
                                            assert(yields_at(search, values1@, values2@, a, b, s, c)
                                                && best_value < c);
                                        }
                                    } else {
                                        assert(fails_at(search, values1@, values2@, a, b));
                                    }
                                }
                            }
                        } else {
                            proof {
                                assert forall|a: int, b: int|
                                    0 <= a < values1.len() && 0 <= b < values2.len() && before(
                                        a,
                                        b,
                                        index1 as int,
                                        index2 + 1,
                                    ) implies #[trigger] no_better_at(
                                    search,
                                    values1@,
                                    values2@,
                                    a,
                                    b,
                                    best_value,
                                    before(a, b, bi, bj),
                                ) by {
                                    if a == index1 && b == index2 {
                                        assert(!before(a, b, bi, bj));
                                    } else {
                                        assert(before(a, b, index1 as int, index2 as int));
                                    }
                                }
                            }
                        }
                    },
                    Err(e) => {
                        assert(e == LocalSearchNotFound);
                        assert(fails_at(search, values1@, values2@, index1 as int, index2 as int));
                        proof {
                            assert forall|a: int, b: int|
                                0 <= a < values1.len() && 0 <= b < values2.len() && before(
                                    a,
                                    b,
                                    index1 as int,
                                    index2 + 1,
                                ) implies (if a == index1 && b == index2 {
                                true
                            } else {
                                before(a, b, index1 as int, index2 as int)
                            }) by {}
                        }
                    },
                }
                index2 += 1;
            }
            proof {
                assert forall|a: int, b: int|
                    0 <= a < index1 + 1 && 0 <= b < values2.len() implies before(
                    a,
                    b,
                    index1 as int,
                    values2.len() as int,
                ) by {}
            }
            index1 += 1;
        }
        proof {
            if ret is Some {
                assert(picked(
                    search,
                    values1@,
                    values2@,
                    self.first_improvement,
                    ret.unwrap(),
                    bi,
                    bj,
                    best_value,
                ));
            }
        }
        ret
    }
}

} // verus!
