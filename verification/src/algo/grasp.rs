//! GRASP: randomised greedy construction followed by local search, kept when
//! it beats the best plan so far.

use super::local_search_bf::{ls_step, ls_trace, LocalSearch};
use super::model::{
    append_cost, costs_fit, costs_ok, flat, lemma_cost_fits, lemma_drawn_valid, lemma_flat_set, lemma_full_sum,
    lemma_loaded_full, lemma_max_leg, lemma_sum_update, lemma_sum_zero, lemma_zeros_count, leg,
    loaded_with, max_leg, set_slot, slot, stable_order_of, sum_upto, trucks_cost, valid_palet,
    valid_palets, valid_trucks, lemma_valid_counts, lemma_entry_le_sum, lemma_stable_order_onto,
    lemma_slot, no_loads, drawn_since, lemma_flatten_len_at_least, plan_matches, city_counts,
};
use super::{cost, count_palets, stable_order, Costs, Palets, Trucks, N, N_EVAL, N_TRUCKS, TRUCK_CAP};
use crate::rng::RNG;
use vstd::prelude::*;

verus! {

broadcast use {vstd::multiset::group_multiset_properties, vstd::seq_lib::group_to_multiset_ensures};

/// `sol` is what a round of GRASP gives with the draws `d`: a plan of
/// `GreedyT` made with the first draws of `d`, improved by a local search of
/// `N_EVAL` steps made with the rest, step after step.
pub open spec fn grasp_round(m: Costs, ps: Seq<u8>, sol: Trucks, d: Seq<u64>) -> bool {
    exists|g: Trucks, choice: Seq<int>, loads: Seq<Seq<Seq<u8>>>, gds: Seq<u64>, cands: Seq<Trucks>, bests: Seq<Trucks>, found: int, lds: Seq<Seq<u64>>|
        #[trigger] gt_order(m, ps, g, choice, loads, gds) && #[trigger] ls_trace(m, g, N_EVAL as int, cands, bests, found, lds)
            && sol == bests[N_EVAL as int] && d == gds + lds.flatten()
}

/// A round of GRASP takes a draw per palet for its greedy plan and at least
/// three per step of its local search.
pub proof fn lemma_grasp_round_draws(m: Costs, ps: Seq<u8>, sol: Trucks, d: Seq<u64>)
    requires
        grasp_round(m, ps, sol, d),
    ensures
        d.len() >= ps.len() + 3 * N_EVAL,
{
    let (g, choice, loads, gds, cands, bests, found, lds) = choose|g: Trucks, choice: Seq<int>, loads: Seq<Seq<Seq<u8>>>, gds: Seq<u64>, cands: Seq<Trucks>, bests: Seq<Trucks>, found: int, lds: Seq<Seq<u64>>|
        #[trigger] gt_order(m, ps, g, choice, loads, gds) && #[trigger] ls_trace(m, g, N_EVAL as int, cands, bests, found, lds)
            && sol == bests[N_EVAL as int] && d == gds + lds.flatten();
    assert forall|k: int| 0 <= k < lds.len() implies (#[trigger] lds[k]).len() >= 3 by {
        assert(ls_step(m, cands, bests, lds, k));
    }
    lemma_flatten_len_at_least(lds, 3);
}

/// GRASP over the palets.
pub struct Grasp<'a> {
    cost_mat: &'a Costs,
    palets: &'a Palets,
    #[allow(unused)]
    trucks: Trucks,
}

impl<'a> Grasp<'a> {
    /// The cost matrix.
    pub closed spec fn costs(&self) -> Costs {
        *self.cost_mat
    }

    /// The palets.
    pub closed spec fn palets(&self) -> Seq<u8> {
        self.palets@
    }

    pub fn new(cost_mat: &'a Costs, palets: &'a Palets) -> (s: Self)
        ensures
            s.costs() == *cost_mat,
            s.palets() == palets@,
    {
        Grasp { cost_mat, palets, trucks: [[0u8; TRUCK_CAP]; N_TRUCKS] }
    }

    /// Fifty times: a plan from `GreedyT`, improved by local search; the
    /// cheapest result is returned with its cost.
    pub fn run(&self, rng: &mut RNG) -> (res: (Trucks, usize))
        requires
            costs_fit(self.costs()),
            valid_palets(self.palets()),
            self.palets().len() == N_TRUCKS * TRUCK_CAP,
        ensures
            valid_trucks(res.0),
            flat(res.0).to_multiset() == self.palets().to_multiset(),
            res.1 == trucks_cost(self.costs(), res.0),
            old(rng).draws().len() + 50 * (N_TRUCKS * TRUCK_CAP + 3 * N_EVAL) <= final(rng).draws().len(),
            exists|rounds: Seq<Trucks>, b: int, segs: Seq<Seq<u64>>|
                #![trigger rounds[b], segs.flatten()]
                rounds.len() == 50 && segs.len() == 50 && final(rng).draws() == old(rng).draws() + segs.flatten()
                    && (forall|k: int| 0 <= k < 50 ==> #[trigger] grasp_round(self.costs(), self.palets(), rounds[k], segs[k]))
                    && 0 <= b < 50 && res.0 == rounds[b] && (forall|k: int| 0 <= k < 50 ==> res.1 <= trucks_cost(self.costs(), #[trigger] rounds[k]))
                    && (forall|k: int| 0 <= k < b ==> res.1 < trucks_cost(self.costs(), #[trigger] rounds[k])),
    {
        let mut best_sol: Trucks = [[0u8; TRUCK_CAP]; N_TRUCKS];
        let mut best_cost = usize::MAX;
        let gp = GreedyT::new(self.cost_mat, self.palets);
        let ls = LocalSearch::new(self.cost_mat, self.palets);
        let mut found = false;
        let mut it: usize = 0;
        let ghost m = self.costs();
        let ghost ps = self.palets();
        let ghost mut rounds: Seq<Trucks> = Seq::empty();
        let ghost mut b: int = 0;
        let ghost mut segs: Seq<Seq<u64>> = Seq::empty();
        while it < 50
            invariant
                it <= 50,
                m == self.costs(),
                ps == self.palets(),
                costs_fit(self.costs()),
                valid_palets(self.palets()),
                self.palets().len() == N_TRUCKS * TRUCK_CAP,
                gp.costs() == self.costs(),
                gp.palets() == self.palets(),
                ls.costs() == self.costs(),
                found ==> valid_trucks(best_sol) && flat(best_sol).to_multiset() == self.palets().to_multiset()
                    && best_cost == trucks_cost(self.costs(), best_sol),
                it > 0 ==> found,
                !found ==> best_cost == usize::MAX,
                rounds.len() == it,
                segs.len() == it,
                rng.draws() == old(rng).draws() + segs.flatten(),
                old(rng).draws().len() + it * (N_TRUCKS * TRUCK_CAP + 3 * N_EVAL) <= rng.draws().len(),
                forall|k: int| 0 <= k < it ==> #[trigger] grasp_round(m, ps, rounds[k], segs[k]),
                forall|k: int| 0 <= k < it ==> trucks_cost(m, #[trigger] rounds[k]) < usize::MAX,
                found ==> 0 <= b < it && best_sol == rounds[b],
                forall|k: int| 0 <= k < it ==> best_cost <= trucks_cost(m, #[trigger] rounds[k]),
                forall|k: int| 0 <= k < b ==> best_cost < trucks_cost(m, #[trigger] rounds[k]),
            decreases 50 - it,
        {
            let ghost dstart = rng.draws();
            let g = gp.run(rng);
            let ghost dmid = rng.draws();
            let sol = ls.run_with_start(g, rng);
            let ghost old_rounds = rounds;
            let ghost old_segs = segs;
            proof {
                let gds = drawn_since(dstart, dmid);
                let (choice, loads) = choose|choice: Seq<int>, loads: Seq<Seq<Seq<u8>>>| #[trigger] gt_order(m, ps, g, choice, loads, gds);
                let (cands, bests, fnd, lds) = choose|cands: Seq<Trucks>, bests: Seq<Trucks>, fnd: int, lds: Seq<Seq<u64>>|
                    #[trigger] ls_trace(m, g, N_EVAL as int, cands, bests, fnd, lds) && sol == bests[N_EVAL as int]
                        && rng.draws() == dmid + lds.flatten();
                let seg = gds + lds.flatten();
                assert(dmid =~= dstart + gds);
                assert(rng.draws() =~= dstart + seg);
                assert(grasp_round(m, ps, sol, seg));
                lemma_grasp_round_draws(m, ps, sol, seg);
                rounds = rounds.push(sol);
                segs = segs.push(seg);
                old_segs.lemma_flatten_push(seg);
                assert(rng.draws() =~= old(rng).draws() + segs.flatten());
                assert((it + 1) * (N_TRUCKS * TRUCK_CAP + 3 * N_EVAL) == it * (N_TRUCKS * TRUCK_CAP + 3 * N_EVAL) + (N_TRUCKS * TRUCK_CAP + 3 * N_EVAL)) by (nonlinear_arith);
            }
            proof {
                lemma_cost_fits(self.costs(), sol);
                lemma_max_leg();
                super::model::lemma_cost_fits(self.costs(), sol);
                assert(trucks_cost(self.costs(), sol) < usize::MAX) by {
                    lemma_cost_below_max(self.costs(), sol);
                }
            }
            let c = cost(self.cost_mat, &sol);
            if c < best_cost {
                best_cost = c;
                best_sol = sol;
                found = true;
                proof {
                    b = it as int;
                }
            }
            proof {
                assert forall|k: int| 0 <= k < it + 1 implies #[trigger] grasp_round(m, ps, rounds[k], segs[k]) by {
                    if k < it {
                        assert(rounds[k] == old_rounds[k]);
                        assert(segs[k] == old_segs[k]);
                    }
                }
                assert forall|k: int| 0 <= k < it + 1 implies trucks_cost(m, #[trigger] rounds[k]) < usize::MAX by {
                    if k < it {
                        assert(rounds[k] == old_rounds[k]);
                    }
                }
                assert forall|k: int| 0 <= k < it + 1 implies best_cost <= trucks_cost(m, #[trigger] rounds[k]) by {
                    if k < it {
                        assert(rounds[k] == old_rounds[k]);
                    }
                }
                assert forall|k: int| 0 <= k < b implies best_cost < trucks_cost(m, #[trigger] rounds[k]) by {
                    assert(rounds[k] == old_rounds[k]);
                }
                if found {
                    assert(rounds[b] == if b < it { old_rounds[b] } else { sol });
                }
            }
            it = it + 1;
        }
        let res = (best_sol, best_cost);
        proof {
            assert(res.0 == rounds[b]);
        }
        res
    }
}

/// No plan of valid palets costs `usize::MAX` where the legs fit.
proof fn lemma_cost_below_max(m: Costs, t: Trucks)
    requires
        costs_fit(m),
        valid_trucks(t),
    ensures
        trucks_cost(m, t) < usize::MAX,
{
    super::model::lemma_cost_strictly_fits(m, t);
}

/// The trucks of `loads` among the first `n` that have room, in order.
pub open spec fn open_trucks(loads: Seq<Seq<u8>>, n: int) -> Seq<usize>
    decreases n,
{
    if n <= 0 {
        Seq::empty()
    } else if loads[n - 1].len() < TRUCK_CAP {
        open_trucks(loads, n - 1).push((n - 1) as usize)
    } else {
        open_trucks(loads, n - 1)
    }
}

/// The costs of putting `pal` on each of `trucks`.
pub open spec fn truck_keys(m: Costs, loads: Seq<Seq<u8>>, trucks: Seq<usize>, pal: u8) -> Seq<usize> {
    trucks.map_values(|t: usize| append_cost(m, loads[t as int], pal) as usize)
}

/// One step of `GreedyT` with the draw `d`: the trucks with room are ranked
/// by the cost of putting `pal` on them (stably), and `t` is the one at the
/// rank that `d` picks below `N_TRUCKS / 2` (or below the number of trucks
/// with room, where fewer).
pub open spec fn gt_step(m: Costs, loads: Seq<Seq<u8>>, pal: u8, t: int, d: u64) -> bool {
    let open = open_trucks(loads, N_TRUCKS as int);
    let nb = if N_TRUCKS / 2 < open.len() { (N_TRUCKS / 2) as int } else { open.len() as int };
    exists|order: Seq<usize>|
        #[trigger] stable_order_of(truck_keys(m, loads, open, pal), order) && 0 < nb && open[order[((d as usize) % (nb as usize)) as int] as int] == t
}

/// Palet `k` of `ps` went, by a step of `GreedyT` with the draw `ds[k]`, to
/// truck `choice[k]`, which turned the loads `loads[k]` into `loads[k + 1]`.
pub open spec fn gt_step_at(m: Costs, ps: Seq<u8>, choice: Seq<int>, loads: Seq<Seq<Seq<u8>>>, ds: Seq<u64>, k: int) -> bool {
    &&& gt_step(m, loads[k], ps[k], choice[k], ds[k])
    &&& loads[k + 1] == loads[k].update(choice[k], loads[k][choice[k]].push(ps[k]))
}

/// The palets of `ps`, in order, went to the trucks `choice` by steps of
/// `GreedyT` from empty trucks, palet `k` with the draw `ds[k]`, and `sol`
/// holds the loads they made.
pub open spec fn gt_order(m: Costs, ps: Seq<u8>, sol: Trucks, choice: Seq<int>, loads: Seq<Seq<Seq<u8>>>, ds: Seq<u64>) -> bool {
    &&& choice.len() == ps.len()
    &&& ds.len() == ps.len()
    &&& loads.len() == ps.len() + 1
    &&& loads[0] == no_loads()
    &&& forall|k: int| 0 <= k < ps.len() ==> #[trigger] gt_step_at(m, ps, choice, loads, ds, k)
    &&& plan_matches(sol, loads[ps.len() as int])
}

/// Randomised greedy: each palet, in order, goes to one of the
/// `N_TRUCKS / 2` trucks with room that are cheapest to reach (ranked by the
/// extra leg from their last palet, ties by truck), drawn at random.
pub struct GreedyT<'a> {
    cost_mat: &'a Costs,
    palets: &'a Palets,
    #[allow(unused)]
    trucks: Trucks,
}

impl<'a> GreedyT<'a> {
    /// The cost matrix.
    pub closed spec fn costs(&self) -> Costs {
        *self.cost_mat
    }

    /// The palets.
    pub closed spec fn palets(&self) -> Seq<u8> {
        self.palets@
    }

    pub fn new(cost_mat: &'a Costs, palets: &'a Palets) -> (s: Self)
        ensures
            s.costs() == *cost_mat,
            s.palets() == palets@,
    {
        GreedyT { cost_mat, palets, trucks: [[0u8; TRUCK_CAP]; N_TRUCKS] }
    }

    /// The plan built as the type describes; every slot is filled, as the
    /// plan's cost is taken at the end.
    pub fn run(&self, rng: &mut RNG) -> (sol: Trucks)
        requires
            costs_fit(self.costs()),
            valid_palets(self.palets()),
            self.palets().len() == N_TRUCKS * TRUCK_CAP,
        ensures
            loaded_with(sol, self.palets()),
            flat(sol).to_multiset() == self.palets().to_multiset(),
            valid_trucks(sol),
            old(rng).draws().is_prefix_of(final(rng).draws()),
            exists|choice: Seq<int>, loads: Seq<Seq<Seq<u8>>>| #[trigger] gt_order(
                self.costs(),
                self.palets(),
                sol,
                choice,
                loads,
                final(rng).draws().skip(old(rng).draws().len() as int),
            ),
    {
        let ghost m = self.costs();
        let ghost ps = self.palets();
        let ghost d0 = rng.draws();
        let mut sol: Trucks = [[0u8; TRUCK_CAP]; N_TRUCKS];
        let mut lens: [usize; N_TRUCKS] = [0usize; N_TRUCKS];
        let mut k: usize = 0;
        let ghost mut choice: Seq<int> = Seq::empty();
        let ghost mut loadseq: Seq<Seq<Seq<u8>>> = seq![no_loads()];
        proof {
            assert(plan_matches(sol, no_loads()));
            assert(ps.take(0) =~= Seq::<u8>::empty());
            assert forall|v: u8| #[trigger] flat(sol).to_multiset().count(v) == ps.take(0).to_multiset().count(v) + if v == 0 {
                (N_TRUCKS * TRUCK_CAP) as int - 0
            } else {
                0
            } by {
                assert(flat(sol) =~= Seq::new((N_TRUCKS * TRUCK_CAP) as nat, |i: int| 0u8));
                lemma_zeros_count(v);
            }
            lemma_sum_zero(lens@, N_TRUCKS as int);
        }
        while k < self.palets.len()
            invariant
                k <= ps.len(),
                m == self.costs(),
                ps == self.palets(),
                costs_fit(m),
                valid_palets(ps),
                ps.len() == N_TRUCKS * TRUCK_CAP,
                forall|t: int| 0 <= t < N_TRUCKS ==> #[trigger] lens[t] <= TRUCK_CAP,
                sum_upto(lens@, N_TRUCKS as int) == k,
                forall|t: int, j: int| 0 <= t < N_TRUCKS && lens[t] <= j < TRUCK_CAP ==> #[trigger] sol[t][j] == 0,
                forall|t: int, j: int| 0 <= t < N_TRUCKS && 0 <= j < lens[t] ==> valid_palet(#[trigger] sol[t][j]),
                loaded_with(sol, ps.take(k as int)),
                choice.len() == k,
                loadseq.len() == k + 1,
                loadseq[0] == no_loads(),
                d0 == old(rng).draws(),
                d0.is_prefix_of(rng.draws()),
                rng.draws().len() == d0.len() + k,
                forall|q: int| 0 <= q < k ==> #[trigger] gt_step_at(m, ps, choice, loadseq, rng.draws().skip(d0.len() as int), q),
                plan_matches(sol, loadseq[k as int]),
                forall|t: int| 0 <= t < N_TRUCKS ==> #[trigger] lens[t] == loadseq[k as int][t].len(),
            decreases ps.len() - k,
        {
            let pal = self.palets[k];
            assert(valid_palet(ps[k as int]));
            let mut dist_cost: Vec<usize> = Vec::new();
            let mut dist_truck: Vec<usize> = Vec::new();
            let mut i: usize = 0;
            let ghost cur = loadseq[k as int];
            while i < N_TRUCKS
                invariant
                    i <= N_TRUCKS,
                    costs_fit(m),
                    m == self.costs(),
                    valid_palet(pal),
                    dist_cost@.len() == dist_truck@.len(),
                    forall|x: int| 0 <= x < dist_truck@.len() ==> (#[trigger] dist_truck@[x]) < N_TRUCKS && lens[dist_truck@[x] as int] < TRUCK_CAP,
                    (exists|j: int| 0 <= j < i && #[trigger] lens[j] < TRUCK_CAP) ==> dist_truck@.len() > 0,
                    forall|t: int, j: int| 0 <= t < N_TRUCKS && 0 <= j < lens[t] ==> valid_palet(#[trigger] sol[t][j]),
                    forall|t: int| 0 <= t < N_TRUCKS ==> #[trigger] lens[t] <= TRUCK_CAP,
                    plan_matches(sol, cur),
                    forall|t: int| 0 <= t < N_TRUCKS ==> #[trigger] lens[t] == cur[t].len(),
                    dist_truck@ == open_trucks(cur, i as int),
                    forall|x: int| 0 <= x < dist_cost@.len() ==> #[trigger] dist_cost@[x] == append_cost(m, cur[dist_truck@[x] as int], pal),
                decreases N_TRUCKS - i,
            {
                if lens[i] < TRUCK_CAP {
                    let t_len = lens[i];
                    if t_len == 0 {
                        proof {
                            assert(leg(m, 0, pal - 1) <= max_leg());
                        }
                        dist_cost.push(self.cost_mat[0][(pal - 1) as usize]);
                        dist_truck.push(i);
                    } else {
                        let last = sol[i][t_len - 1];
                        assert(valid_palet(sol[i as int][t_len - 1]));
                        assert(cur[i as int].last() == last);
                        dist_cost.push(self.cost_mat[(last - 1) as usize][(pal - 1) as usize]);
                        dist_truck.push(i);
                    }
                }
                i = i + 1;
            }
            proof {
                if forall|j: int| 0 <= j < N_TRUCKS ==> !(#[trigger] lens[j] < TRUCK_CAP) {
                    lemma_full_sum(lens@, N_TRUCKS as int);
                }
            }
            let order = stable_order(&dist_cost);
            let n_best = if N_TRUCKS / 2 < order.len() {
                N_TRUCKS / 2
            } else {
                order.len()
            };
            proof {
                assert(dist_cost@ =~= truck_keys(m, cur, open_trucks(cur, N_TRUCKS as int), pal));
            }
            let ghost dprev = rng.draws();
            let prob = rng.next() % n_best;
            let ghost dnow = rng.draws();
            proof {
                assert(dnow =~= dprev.push(dnow.last()));
            }
            let x = order[prob];
            let truck = dist_truck[x];
            let last = lens[truck];
            let ghost old_sol = sol;
            let ghost old_lens = lens@;
            let ghost old_choice = choice;
            let ghost old_loadseq = loadseq;
            sol[truck][last] = pal;
            lens[truck] = last + 1;
            k = k + 1;
            proof {
                assert(set_slot(old_sol, sol, truck as int, last as int, pal));
                lemma_flat_set(old_sol, sol, truck as int, last as int, pal);
                lemma_sum_update(old_lens, N_TRUCKS as int, truck as int, (last + 1) as usize);
                assert(lens@ =~= old_lens.update(truck as int, (last + 1) as usize));
                let fo = flat(old_sol);
                let sl = slot(truck as int, last as int);
                assert(fo[sl] == 0);
                vstd::seq_lib::to_multiset_update(fo, sl, pal);
                assert(ps.take(k as int) =~= ps.take(k - 1).push(pal));
                vstd::seq_lib::to_multiset_build(ps.take(k - 1), pal);
                assert(fo.to_multiset().count(0) > 0);
                let next = cur.update(truck as int, cur[truck as int].push(pal));
                choice = choice.push(truck as int);
                loadseq = loadseq.push(next);
                let dsn = dnow.skip(d0.len() as int);
                let dsp = dprev.skip(d0.len() as int);
                assert(dsn[k - 1] == dnow.last());
                assert(stable_order_of(truck_keys(m, cur, open_trucks(cur, N_TRUCKS as int), pal), order@));
                assert(gt_step(m, cur, pal, truck as int, dsn[k - 1]));
                assert(plan_matches(sol, next)) by {
                    assert forall|t: int, j: int| 0 <= t < N_TRUCKS && 0 <= j < TRUCK_CAP implies #[trigger] sol[t][j] == if j < next[t].len() {
                        next[t][j]
                    } else {
                        0
                    } by {
                        if t == truck {
                            assert(old_sol[t][j] == if j < cur[t].len() { cur[t][j] } else { 0 });
                        } else {
                            assert(sol[t][j] == old_sol[t][j]);
                        }
                    }
                }
                assert forall|q: int| 0 <= q < k implies #[trigger] gt_step_at(m, ps, choice, loadseq, dsn, q) by {
                    if q < k - 1 {
                        assert(dsn[q] == dsp[q]);
                        assert(gt_step_at(m, ps, old_choice, old_loadseq, dsp, q));
                        assert(loadseq[q] == old_loadseq[q]);
                        assert(loadseq[q + 1] == old_loadseq[q + 1]);
                        assert(choice[q] == old_choice[q]);
                    }
                }
            }
        }
        proof {
            assert(ps.take(k as int) =~= ps);
            lemma_loaded_full(sol, ps);
            lemma_drawn_valid(sol, ps);
            lemma_cost_fits(m, sol);
            assert(gt_order(m, ps, sol, choice, loadseq, rng.draws().skip(d0.len() as int)));
        }
        let _c = cost(self.cost_mat, &sol);
        sol
    }
}

/// The palets of the list `ps` whose city still has palets left, by
/// `counts`, in list order.
pub open spec fn open_palets(ps: Seq<u8>, counts: Seq<usize>) -> Seq<u8> {
    ps.filter(|p: u8| counts[p - 1] > 0)
}

/// The legs from city index `from` to the cities of `cands`.
pub open spec fn leg_keys(m: Costs, from: int, cands: Seq<u8>) -> Seq<usize> {
    cands.map_values(|p: u8| leg(m, from, p - 1) as usize)
}

/// How many of the ranked palets `GreedyP` draws among: a tenth of the
/// palets left, rounded up, but no more than are ranked.
pub open spec fn gp_best(counts: Seq<usize>, ranked: int) -> int {
    let take = (sum_upto(counts, N as int) + 9) / 10;
    if take < ranked {
        take
    } else {
        ranked
    }
}

/// One step of `GreedyP` from city index `from` with the draw `d`: the
/// palets of the list whose city has palets left are ranked by the leg to
/// their city (stably), `pal` is the one at the rank that `d` picks below
/// `gp_best` (so among the first tenth, rounded up, of the palets left), and
/// `next` counts one palet fewer for its city.
pub open spec fn gp_step(m: Costs, ps: Seq<u8>, from: int, counts: Seq<usize>, pal: u8, next: Seq<usize>, d: u64) -> bool {
    let open = open_palets(ps, counts);
    let nb = gp_best(counts, open.len() as int);
    exists|order: Seq<usize>|
        #[trigger] stable_order_of(leg_keys(m, from, open), order) && 0 < nb && open[order[((d as usize) % (nb as usize)) as int] as int] == pal
            && next == counts.update(pal - 1, (counts[pal - 1] - 1) as usize)
}

/// The city index a truck stands at before it takes slot `k` of the plan:
/// the depot for a first slot, else the city of the slot before.
pub open spec fn from_city(sol: Trucks, k: int) -> int {
    if k % TRUCK_CAP as int == 0 {
        0
    } else {
        flat(sol)[k - 1] - 1
    }
}

/// Slot `k` of `sol` was filled by a step of `GreedyP` from `counts[k]` to
/// `counts[k + 1]` with the draw `ds[k]`.
pub open spec fn gp_step_at(m: Costs, ps: Seq<u8>, sol: Trucks, counts: Seq<Seq<usize>>, ds: Seq<u64>, k: int) -> bool {
    gp_step(m, ps, from_city(sol, k), counts[k], flat(sol)[k], counts[k + 1], ds[k])
}

/// Every slot of `sol`, in order, was filled by a step of `GreedyP`,
/// starting from the counts of the palets of `ps`, slot `k` with the draw
/// `ds[k]`.
pub open spec fn gp_order(m: Costs, ps: Seq<u8>, sol: Trucks, counts: Seq<Seq<usize>>, ds: Seq<u64>) -> bool {
    &&& counts.len() == N_TRUCKS * TRUCK_CAP + 1
    &&& ds.len() == N_TRUCKS * TRUCK_CAP
    &&& counts[0] == city_counts(ps)
    &&& forall|k: int| 0 <= k < N_TRUCKS * TRUCK_CAP ==> #[trigger] gp_step_at(m, ps, sol, counts, ds, k)
}

/// Adding a palet to the list adds it to the open palets where its city has
/// palets left.
proof fn lemma_open_palets_push(s: Seq<u8>, p: u8, counts: Seq<usize>)
    ensures
        open_palets(s.push(p), counts) == if counts[p - 1] > 0 {
            open_palets(s, counts).push(p)
        } else {
            open_palets(s, counts)
        },
{
    s.lemma_filter_push(p, |q: u8| counts[q - 1] > 0);
}

/// Randomised greedy by palets: truck after truck, slot after slot, every
/// palet of the list whose city still has palets left is ranked by the leg
/// from the truck's last palet (or the depot), and one of the cheapest tenth
/// of the palets left (rounded up) is drawn at random.
pub struct GreedyP<'a> {
    cost_mat: &'a Costs,
    palets: &'a Palets,
    #[allow(unused)]
    trucks: Trucks,
}

impl<'a> GreedyP<'a> {
    /// The cost matrix.
    pub closed spec fn costs(&self) -> Costs {
        *self.cost_mat
    }

    /// The palets.
    pub closed spec fn palets(&self) -> Seq<u8> {
        self.palets@
    }

    pub fn new(cost_mat: &'a Costs, palets: &'a Palets) -> (s: Self)
        ensures
            s.costs() == *cost_mat,
            s.palets() == palets@,
    {
        GreedyP { cost_mat, palets, trucks: [[0u8; TRUCK_CAP]; N_TRUCKS] }
    }

    /// The plan built as the type describes.
    pub fn run(&self, rng: &mut RNG) -> (sol: Trucks)
        requires
            costs_ok(self.costs()),
            valid_palets(self.palets()),
            self.palets().len() >= N_TRUCKS * TRUCK_CAP,
        ensures
            flat(sol).to_multiset().subset_of(self.palets().to_multiset()),
            self.palets().len() == N_TRUCKS * TRUCK_CAP ==> flat(sol).to_multiset() == self.palets().to_multiset(),
            valid_trucks(sol),
            old(rng).draws().is_prefix_of(final(rng).draws()),
            exists|counts: Seq<Seq<usize>>| #[trigger] gp_order(
                self.costs(),
                self.palets(),
                sol,
                counts,
                final(rng).draws().skip(old(rng).draws().len() as int),
            ),
    {
        let ghost ps = self.palets();
        let ghost m = self.costs();
        let ghost d0 = rng.draws();
        let mut sol: Trucks = [[0u8; TRUCK_CAP]; N_TRUCKS];
        let mut pals = count_palets(self.palets);
        let mut lens = [0usize; N_TRUCKS];
        let ghost mut steps: Seq<Seq<usize>> = seq![pals@];
        proof {
            assert(pals@ =~= city_counts(ps));
            assert forall|v: u8| #[trigger] flat(sol).to_multiset().count(v) == if v == 0 { 168int } else { 0 } by {
                assert(flat(sol) =~= Seq::new((N_TRUCKS * TRUCK_CAP) as nat, |i: int| 0u8));
                lemma_zeros_count(v);
            }
        }
        let mut i: usize = 0;
        while i < N_TRUCKS
            invariant
                i <= N_TRUCKS,
                ps == self.palets(),
                m == self.costs(),
                costs_ok(m),
                valid_palets(ps),
                ps.len() >= N_TRUCKS * TRUCK_CAP,
                sum_upto(pals@, N as int) + i * TRUCK_CAP == ps.len(),
                forall|v: u8| #[trigger] flat(sol).to_multiset().count(v) == if v == 0 {
                    (N_TRUCKS * TRUCK_CAP - i * TRUCK_CAP) as int
                } else if 1 <= v <= N {
                    ps.to_multiset().count(v) - pals[v - 1]
                } else {
                    0
                },
                forall|t: int, j: int| i <= t < N_TRUCKS && 0 <= j < TRUCK_CAP ==> #[trigger] sol[t][j] == 0,
                forall|t: int| i <= t < N_TRUCKS ==> #[trigger] lens[t] == 0,
                steps.len() == i * TRUCK_CAP + 1,
                steps[0] == city_counts(ps),
                steps[i * TRUCK_CAP] == pals@,
                d0.is_prefix_of(rng.draws()),
                d0 == old(rng).draws(),
                rng.draws().len() == d0.len() + i * TRUCK_CAP,
                forall|k: int| 0 <= k < i * TRUCK_CAP ==> #[trigger] gp_step_at(m, ps, sol, steps, rng.draws().skip(d0.len() as int), k),
            decreases N_TRUCKS - i,
        {
            while lens[i] < TRUCK_CAP
                invariant
                    i < N_TRUCKS,
                    lens[i as int] <= TRUCK_CAP,
                    ps == self.palets(),
                    m == self.costs(),
                    costs_ok(m),
                    valid_palets(ps),
                    ps.len() >= N_TRUCKS * TRUCK_CAP,
                    sum_upto(pals@, N as int) + i * TRUCK_CAP + lens[i as int] == ps.len(),
                    forall|v: u8| #[trigger] flat(sol).to_multiset().count(v) == if v == 0 {
                        (N_TRUCKS * TRUCK_CAP - i * TRUCK_CAP - lens[i as int]) as int
                    } else if 1 <= v <= N {
                        ps.to_multiset().count(v) - pals[v - 1]
                    } else {
                        0
                    },
                    forall|t: int, j: int| i < t < N_TRUCKS && 0 <= j < TRUCK_CAP ==> #[trigger] sol[t][j] == 0,
                    forall|t: int| i < t < N_TRUCKS ==> #[trigger] lens[t] == 0,
                    forall|j: int| lens[i as int] <= j < TRUCK_CAP ==> #[trigger] sol[i as int][j] == 0,
                    forall|j: int| 0 <= j < lens[i as int] ==> valid_palet(#[trigger] sol[i as int][j]),
                    steps.len() == i * TRUCK_CAP + lens[i as int] + 1,
                    steps[0] == city_counts(ps),
                    steps[i * TRUCK_CAP + lens[i as int]] == pals@,
                    d0.is_prefix_of(rng.draws()),
                    d0 == old(rng).draws(),
                    rng.draws().len() == d0.len() + i * TRUCK_CAP + lens[i as int],
                    forall|k: int| 0 <= k < i * TRUCK_CAP + lens[i as int] ==> #[trigger] gp_step_at(m, ps, sol, steps, rng.draws().skip(d0.len() as int), k),
                decreases TRUCK_CAP - lens[i as int],
            {
                proof {
                    assert(i * TRUCK_CAP + lens[i as int] < N_TRUCKS * TRUCK_CAP) by (nonlinear_arith)
                        requires i < N_TRUCKS, lens[i as int] < TRUCK_CAP;
                    if forall|c: int| 0 <= c < N ==> #[trigger] pals@[c] == 0 {
                        lemma_sum_zero(pals@, N as int);
                    }
                }
                let ghost c0 = choose|c: int| 0 <= c < N && #[trigger] pals@[c] != 0;
                proof {
                    let v0 = (c0 + 1) as u8;
                    assert(v0 - 1 == c0);
                    assert(flat(sol).to_multiset().count(v0) == ps.to_multiset().count(v0) - pals[v0 - 1]);
                    assert(ps.to_multiset().count(v0) >= pals[c0]);
                    vstd::seq_lib::to_multiset_contains(ps, v0);
                    assert(ps.contains(v0));
                }
                let t_len = lens[i];
                let last: usize = if t_len == 0 {
                    0
                } else {
                    assert(valid_palet(sol[i as int][t_len - 1]));
                    (sol[i][t_len - 1] - 1) as usize
                };
                let mut pal_costs: Vec<usize> = Vec::new();
                let mut pal_list: Vec<u8> = Vec::new();
                let mut a: usize = 0;
                while a < self.palets.len()
                    invariant
                        a <= ps.len(),
                        ps == self.palets(),
                        m == self.costs(),
                        costs_ok(m),
                        valid_palets(ps),
                        last < N,
                        0 <= c0 < N,
                        pals@[c0] != 0,
                        pal_costs@.len() == pal_list@.len(),
                        pal_list@ == open_palets(ps.take(a as int), pals@),
                        forall|x: int| 0 <= x < pal_costs@.len() ==> #[trigger] pal_costs@[x] == leg(m, last as int, pal_list@[x] - 1),
                        forall|x: int| 0 <= x < pal_list@.len() ==> valid_palet(#[trigger] pal_list@[x]) && pals[pal_list@[x] - 1] > 0,
                        (exists|b: int| 0 <= b < a && #[trigger] ps[b] == (c0 + 1) as u8) ==> pal_list@.len() > 0,
                    decreases ps.len() - a,
                {
                    let pal = self.palets[a];
                    assert(valid_palet(ps[a as int]));
                    proof {
                        assert(ps.take(a + 1) =~= ps.take(a as int).push(pal));
                        lemma_open_palets_push(ps.take(a as int), pal, pals@);
                    }
                    if pals[(pal - 1) as usize] > 0 {
                        pal_costs.push(self.cost_mat[last][(pal - 1) as usize]);
                        pal_list.push(pal);
                    }
                    a = a + 1;
                }
                proof {
                    assert(ps.take(ps.len() as int) =~= ps);
                    assert(pal_costs@ =~= leg_keys(m, last as int, open_palets(ps, pals@)));
                }
                let order = stable_order(&pal_costs);
                let mut total: usize = 0;
                let mut c: usize = 0;
                proof {
                    super::model::lemma_sum_nonneg(pals@, 0);
                }
                while c < N
                    invariant
                        c <= N,
                        total == sum_upto(pals@, c as int),
                        sum_upto(pals@, N as int) <= ps.len(),
                        ps.len() == self.palets@.len(),
                        ps.len() <= usize::MAX,
                    decreases N - c,
                {
                    proof {
                        lemma_sum_mono(pals@, c + 1, N as int);
                    }
                    total = total + pals[c];
                    c = c + 1;
                }
                let take = total / 10 + if total % 10 != 0 {
                    1usize
                } else {
                    0usize
                };
                proof {
                    assert(take == (total + 9) / 10);
                    lemma_entry_le_sum(pals@, N as int, c0);
                }
                let n_best = if take < order.len() {
                    take
                } else {
                    order.len()
                };
                let ghost dprev = rng.draws();
                let r = rng.next() % n_best;
                let ghost dnow = rng.draws();
                proof {
                    assert(dnow =~= dprev.push(dnow.last()));
                }
                let x = order[r];
                let chosen_one = pal_list[x];
                let l = lens[i];
                let ghost old_sol = sol;
                let ghost old_pals = pals@;
                let ghost old_steps = steps;
                sol[i][l] = chosen_one;
                lens[i] = l + 1;
                pals[(chosen_one - 1) as usize] = pals[(chosen_one - 1) as usize] - 1;
                proof {
                    let v = chosen_one;
                    assert(set_slot(old_sol, sol, i as int, l as int, v));
                    lemma_flat_set(old_sol, sol, i as int, l as int, v);
                    let fo = flat(old_sol);
                    let sl = slot(i as int, l as int);
                    assert(fo[sl] == 0);
                    vstd::seq_lib::to_multiset_update(fo, sl, v);
                    vstd::seq_lib::to_multiset_contains(fo, 0u8);
                    assert(fo.contains(0u8));
                    lemma_sum_update(old_pals, N as int, (v - 1) as int, pals[(v - 1) as int]);
                    assert(pals@ =~= old_pals.update((v - 1) as int, pals[(v - 1) as int]));
                    assert forall|w: u8| #[trigger] flat(sol).to_multiset().count(w) == if w == 0 {
                        (N_TRUCKS * TRUCK_CAP - i * TRUCK_CAP - (l + 1)) as int
                    } else if 1 <= w <= N {
                        ps.to_multiset().count(w) - pals[w - 1]
                    } else {
                        0
                    } by {
                        if 1 <= w <= N && w != v {
                            assert(pals[w - 1] == old_pals[w - 1]);
                        }
                    }
                    let k = slot(i as int, l as int);
                    lemma_slot(i as int, l as int);
                    steps = steps.push(pals@);
                    let dsn = dnow.skip(d0.len() as int);
                    let dsp = dprev.skip(d0.len() as int);
                    assert(dsn[k] == dnow.last());
                    assert(n_best == gp_best(old_pals, open_palets(ps, old_pals).len() as int));
                    assert(stable_order_of(leg_keys(m, last as int, open_palets(ps, old_pals)), order@));
                    assert(from_city(sol, k) == last as int) by {
                        if l > 0 {
                            lemma_slot(i as int, l - 1);
                            assert(flat(sol)[k - 1] == sol[i as int][l - 1]);
                        }
                    }
                    assert(flat(sol)[k] == v);
                    assert(gp_step(m, ps, last as int, old_pals, v, pals@, dsn[k]));
                    assert forall|q: int| 0 <= q < k + 1 implies #[trigger] gp_step_at(m, ps, sol, steps, dsn, q) by {
                        if q < k {
                            assert(steps[q] == old_steps[q]);
                            assert(steps[q + 1] == old_steps[q + 1]);
                            assert(flat(sol)[q] == flat(old_sol)[q]);
                            assert(dsn[q] == dsp[q]);
                            if q % TRUCK_CAP as int != 0 {
                                assert(flat(sol)[q - 1] == flat(old_sol)[q - 1]);
                            }
                            assert(gp_step_at(m, ps, old_sol, old_steps, dsp, q));
                        }
                    }
                }
            }
            i = i + 1;
        }
        proof {
            assert forall|v: u8| #[trigger] flat(sol).to_multiset().count(v) <= ps.to_multiset().count(v) by {
                if !valid_palet(v) {
                    lemma_valid_counts(ps, v);
                }
            }
            assert(flat(sol).to_multiset().subset_of(ps.to_multiset()));
            if ps.len() == N_TRUCKS * TRUCK_CAP {
                assert forall|v: u8| #[trigger] flat(sol).to_multiset().count(v) == ps.to_multiset().count(v) by {
                    if !valid_palet(v) {
                        lemma_valid_counts(ps, v);
                    } else {
                        lemma_entry_le_sum(pals@, N as int, v - 1);
                    }
                }
                assert(flat(sol).to_multiset() =~= ps.to_multiset());
            }
            lemma_drawn_valid(sol, ps);
            assert(gp_order(m, ps, sol, steps, rng.draws().skip(d0.len() as int)));
        }
        sol
    }
}

proof fn lemma_sum_mono(s: Seq<usize>, a: int, b: int)
    requires
        0 <= a <= b <= s.len(),
    ensures
        sum_upto(s, a) <= sum_upto(s, b),
    decreases b - a,
{
    if a < b {
        lemma_sum_mono(s, a, b - 1);
    }
}

} // verus!
