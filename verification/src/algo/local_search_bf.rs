//! Local search that keeps the best plan met and moves to a random neighbour
//! whenever that neighbour is cheaper.

use super::model::{
    costs_fit, flat, lemma_cost_fits, lemma_drawn_valid, move_between_trucks, move_in_truck, same_load,
    trucks_cost, valid_palets, valid_trucks, drawn_since,
};
use super::{cost, gen_neighbour, gen_sol2, neighbour_draws, picked, Costs, Palets, Trucks, CBT, N_EVAL, N_TRUCKS, TRUCK_CAP};
use crate::rng::RNG;
use vstd::prelude::*;

verus! {

broadcast use vstd::multiset::group_multiset_properties;

/// Step `k` of a local search: the candidate `cands[k]` is a neighbour of
/// the best plan `bests[k]` (between trucks on even steps and within a truck
/// on odd ones, as `CBT` asks; always between trucks otherwise), and it is the
/// next best plan exactly when it is cheaper.
pub open spec fn ls_step(m: Costs, cands: Seq<Trucks>, bests: Seq<Trucks>, ds: Seq<Seq<u64>>, k: int) -> bool {
    let between = if CBT {
        k % 2 == 0
    } else {
        true
    };
    &&& between ==> move_between_trucks(bests[k], cands[k])
    &&& !between ==> move_in_truck(bests[k], cands[k])
    &&& neighbour_draws(between, ds[k], bests[k], cands[k])
    &&& bests[k + 1] == if trucks_cost(m, cands[k]) < trucks_cost(m, bests[k]) {
        cands[k]
    } else {
        bests[k]
    }
}

/// A local search of `n` steps from `start` drew the candidates `cands`,
/// step `k` with the draws `ds[k]` (`neighbour_draws`), and went through the
/// best plans `bests`; `found` is the last step (counted from 1) that found a
/// cheaper plan, or 0.
pub open spec fn ls_trace(
    m: Costs,
    start: Trucks,
    n: int,
    cands: Seq<Trucks>,
    bests: Seq<Trucks>,
    found: int,
    ds: Seq<Seq<u64>>,
) -> bool {
    &&& cands.len() == n
    &&& ds.len() == n
    &&& bests.len() == n + 1
    &&& bests[0] == start
    &&& forall|k: int| 0 <= k < n ==> #[trigger] ls_step(m, cands, bests, ds, k)
    &&& 0 <= found <= n
    &&& forall|k: int| found <= k <= n ==> #[trigger] bests[k] == bests[found]
    &&& found > 0 ==> trucks_cost(m, cands[found - 1]) < trucks_cost(m, bests[found - 1])
}

/// Local search over random neighbours.
pub struct LocalSearch<'a> {
    cost_mat: &'a Costs,
    palets: &'a Palets,
    #[allow(unused)]
    trucks: Trucks,
}

impl<'a> LocalSearch<'a> {
    /// The cost matrix the search prices plans with.
    pub closed spec fn costs(&self) -> Costs {
        *self.cost_mat
    }

    /// The palets the search loads.
    pub closed spec fn palets(&self) -> Seq<u8> {
        self.palets@
    }

    pub fn new(cost_mat: &'a Costs, palets: &'a Palets) -> (s: Self)
        ensures
            s.costs() == *cost_mat,
            s.palets() == palets@,
    {
        LocalSearch { cost_mat, palets, trucks: [[0u8; TRUCK_CAP]; N_TRUCKS] }
    }

    /// Runs `N_EVAL` steps from `best_sol`: each step draws a neighbour of the
    /// best plan so far (alternately between trucks and within a truck) and
    /// keeps it when it is cheaper. The plan returned holds the palets of
    /// `best_sol` and costs no more.
    pub fn run_with_start(&self, best_sol: Trucks, rng: &mut RNG) -> (sol: Trucks)
        requires
            costs_fit(self.costs()),
            valid_trucks(best_sol),
        ensures
            same_load(best_sol, sol),
            valid_trucks(sol),
            trucks_cost(self.costs(), sol) <= trucks_cost(self.costs(), best_sol),
            exists|cands: Seq<Trucks>, bests: Seq<Trucks>, found: int, ds: Seq<Seq<u64>>|
                #[trigger] ls_trace(self.costs(), best_sol, N_EVAL as int, cands, bests, found, ds) && sol
                    == bests[N_EVAL as int] && final(rng).draws() == old(rng).draws() + ds.flatten(),
    {
        let (sol, _, _) = self.improve(best_sol, rng);
        sol
    }

    /// The search of `run_with_start`, also giving the cost of the plan found
    /// and the step at which it was found.
    fn improve(&self, start: Trucks, rng: &mut RNG) -> (res: (Trucks, usize, usize))
        requires
            costs_fit(self.costs()),
            valid_trucks(start),
        ensures
            same_load(start, res.0),
            valid_trucks(res.0),
            res.1 == trucks_cost(self.costs(), res.0),
            res.1 <= trucks_cost(self.costs(), start),
            res.2 <= N_EVAL,
            exists|cands: Seq<Trucks>, bests: Seq<Trucks>, ds: Seq<Seq<u64>>|
                #[trigger] ls_trace(self.costs(), start, N_EVAL as int, cands, bests, res.2 as int, ds) && res.0
                    == bests[N_EVAL as int] && final(rng).draws() == old(rng).draws() + ds.flatten(),
    {
        proof {
            lemma_cost_fits(self.costs(), start);
        }
        let mut best_sol = start;
        let mut best_cost = cost(self.cost_mat, &best_sol);
        let mut it: usize = 0;
        let mut best_it: usize = 0;
        let mut switch = true;
        let ghost m = self.costs();
        let ghost mut cands: Seq<Trucks> = Seq::empty();
        let ghost mut bests: Seq<Trucks> = seq![start];
        let ghost mut ds: Seq<Seq<u64>> = Seq::empty();
        while it < N_EVAL
            invariant
                it <= N_EVAL,
                best_it <= it,
                m == self.costs(),
                costs_fit(self.costs()),
                same_load(start, best_sol),
                valid_trucks(best_sol),
                best_cost == trucks_cost(self.costs(), best_sol),
                best_cost <= trucks_cost(self.costs(), start),
                switch == if CBT {
                    it % 2 == 0
                } else {
                    true
                },
                cands.len() == it,
                bests.len() == it + 1,
                bests[0] == start,
                bests[it as int] == best_sol,
                ds.len() == it,
                rng.draws() == old(rng).draws() + ds.flatten(),
                forall|k: int| 0 <= k < it ==> #[trigger] ls_step(m, cands, bests, ds, k),
                forall|k: int| best_it <= k <= it ==> #[trigger] bests[k] == best_sol,
                best_it > 0 ==> trucks_cost(m, cands[best_it - 1]) < trucks_cost(m, bests[best_it - 1]),
            decreases N_EVAL - it,
        {
            let ghost k0 = it as int;
            let ghost old_cands = cands;
            let ghost old_bests = bests;
            let ghost old_best = best_sol;
            let ghost old_ds = ds;
            let ghost dprev = rng.draws();
            it = it + 1;
            let next_sol = gen_neighbour(&best_sol, switch, rng);
            let ghost seg = drawn_since(dprev, rng.draws());
            if CBT {
                switch = !switch;
            }
            proof {
                lemma_cost_fits(self.costs(), next_sol);
            }
            let next_cost = cost(self.cost_mat, &next_sol);
            if next_cost < best_cost {
                best_sol = next_sol;
                best_cost = next_cost;
                best_it = it;
            }
            proof {
                cands = cands.push(next_sol);
                bests = bests.push(best_sol);
                ds = ds.push(seg);
                old_ds.lemma_flatten_push(seg);
                assert(rng.draws() =~= dprev + seg);
                assert(rng.draws() =~= old(rng).draws() + ds.flatten());
                assert(ls_step(m, cands, bests, ds, k0));
                assert forall|k: int| 0 <= k < it implies #[trigger] ls_step(m, cands, bests, ds, k) by {
                    if k < k0 {
                        assert(ls_step(m, old_cands, old_bests, old_ds, k));
                        assert(ds[k] == old_ds[k]);
                        assert(cands[k] == old_cands[k]);
                        assert(bests[k] == old_bests[k]);
                        assert(bests[k + 1] == old_bests[k + 1]);
                    }
                }
                assert forall|k: int| best_it <= k <= it implies #[trigger] bests[k] == best_sol by {
                    if k < it {
                        assert(bests[k] == old_bests[k]);
                    }
                }
                if best_it > 0 && best_it < it {
                    assert(cands[best_it - 1] == old_cands[best_it - 1]);
                    assert(bests[best_it - 1] == old_bests[best_it - 1]);
                }
            }
        }
        proof {
            assert(ls_trace(m, start, N_EVAL as int, cands, bests, best_it as int, ds));
            assert(best_sol == bests[N_EVAL as int]);
        }
        let res = (best_sol, best_cost, best_it);
        proof {
            assert(ls_trace(self.costs(), start, N_EVAL as int, cands, bests, res.2 as int, ds) && res.0 == bests[N_EVAL as int]);
        }
        res
    }

    /// Runs the search from a random plan (`gen_sol2`) and gives the cost of
    /// the plan found and the step at which it was found.
    pub fn run(&self, rng: &mut RNG) -> (res: (usize, usize))
        requires
            costs_fit(self.costs()),
            valid_palets(self.palets()),
            self.palets().len() >= N_TRUCKS * TRUCK_CAP,
        ensures
            exists|t: Trucks|
                flat(t).to_multiset().subset_of(self.palets().to_multiset()) && valid_trucks(t)
                    && res.0 == #[trigger] trucks_cost(self.costs(), t),
            res.1 <= N_EVAL,
            exists|start: Trucks, cands: Seq<Trucks>, bests: Seq<Trucks>, ds: Seq<Seq<u64>>, s0: Seq<u64>|
                flat(start).to_multiset().subset_of(self.palets().to_multiset()) && #[trigger] picked(self.palets(), s0, start)
                    && final(rng).draws() == old(rng).draws() + s0 + ds.flatten() && #[trigger] ls_trace(
                    self.costs(),
                    start,
                    N_EVAL as int,
                    cands,
                    bests,
                    res.1 as int,
                    ds,
                ) && res.0 == trucks_cost(self.costs(), bests[N_EVAL as int]),
    {
        let ghost d0 = rng.draws();
        let start = gen_sol2(self.palets, rng);
        let ghost d1 = rng.draws();
        proof {
            lemma_drawn_valid(start, self.palets());
        }
        let (best_sol, best_cost, best_it) = self.improve(start, rng);
        proof {
            assert(flat(best_sol).to_multiset() == flat(start).to_multiset());
            assert(flat(best_sol).to_multiset().subset_of(self.palets().to_multiset()));
        }
        let res = (best_cost, best_it);
        proof {
            let (cands, bests, ds) = choose|cands: Seq<Trucks>, bests: Seq<Trucks>, ds: Seq<Seq<u64>>|
                #[trigger] ls_trace(self.costs(), start, N_EVAL as int, cands, bests, best_it as int, ds) && best_sol
                    == bests[N_EVAL as int] && rng.draws() == d1 + ds.flatten();
            assert(d1 =~= d0 + drawn_since(d0, d1));
            assert(rng.draws() =~= d0 + drawn_since(d0, d1) + ds.flatten());
            assert(ls_trace(self.costs(), start, N_EVAL as int, cands, bests, res.1 as int, ds));
        }
        res
    }
}

} // verus!
