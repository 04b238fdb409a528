//! Random search: the cheapest of `N_EVAL` random plans.

use super::model::{
    costs_fit, flat, lemma_cost_fits, lemma_drawn_valid, lemma_flat_set, lemma_full_sum,
    lemma_loaded_full, lemma_open_sum_lt, lemma_sum_update, lemma_sum_zero, lemma_zeros_count,
    loaded_with, set_slot, slot, sum_upto, trucks_cost, valid_palets, valid_trucks, dealt, deal_step,
    lemma_deal_next, no_loads, plan_matches, is_dealt, deal_draws, drawn_below, drawn_since,
};
use super::{cost, gen_sol, open_drawn, Costs, Palets, Trucks, N_EVAL, N_TRUCKS, TRUCK_CAP};
use crate::rng::RNG;
use vstd::prelude::*;

verus! {

broadcast use {vstd::multiset::group_multiset_properties, vstd::seq_lib::group_to_multiset_ensures};

/// A random search from `start` drew the plans `draws`, each holding the
/// palets `ps` and dealt from them in order (`is_dealt`); `best` is the lowest
/// cost among the start and the draws, and `found` the first draw that costs
/// it, where some draw costs less than the start (0 otherwise).
pub open spec fn rs_trace(
    m: Costs,
    ps: Seq<u8>,
    start: Trucks,
    draws: Seq<Trucks>,
    best: int,
    found: int,
    segs: Seq<Seq<u64>>,
) -> bool {
    &&& draws.len() == N_EVAL
    &&& segs.len() == N_EVAL
    &&& forall|k: int| 0 <= k < N_EVAL ==> #[trigger] batch_drawn(ps, segs[k], draws[k])
    &&& forall|k: int| 0 <= k < N_EVAL ==> flat(#[trigger] draws[k]).to_multiset() == ps.to_multiset()
    &&& forall|k: int| 0 <= k < N_EVAL ==> #[trigger] is_dealt(ps, draws[k])
    &&& best <= trucks_cost(m, start)
    &&& forall|k: int| 0 <= k < N_EVAL ==> best <= trucks_cost(m, #[trigger] draws[k])
    &&& best < trucks_cost(m, start) ==> {
        &&& 0 <= found < N_EVAL
        &&& trucks_cost(m, draws[found]) == best
        &&& forall|k: int| 0 <= k < found ==> best < trucks_cost(m, #[trigger] draws[k])
    }
    &&& best == trucks_cost(m, start) ==> found == 0
}

/// The draws `d` of `gen_sol2` for the plan `sol`: whole batches of
/// `BATCH` draws, dealt in order (`deal_draws`); where they deal every palet,
/// `sol` holds the loads they make and the batches before the last did not
/// deal them all. (Only after `usize::MAX` batches does the dealing give up,
/// and the plan is then not stated here.)
pub open spec fn batch_drawn(ps: Seq<u8>, d: Seq<u64>, sol: Trucks) -> bool {
    &&& d.len() >= BATCH
    &&& d.len() % (BATCH as nat) == 0
    &&& if deal_draws(ps, d).1 == ps.len() {
        plan_matches(sol, deal_draws(ps, d).0) && deal_draws(ps, d.take(d.len() - BATCH)).1 < ps.len()
    } else {
        d.len() == BATCH * usize::MAX
    }
}

/// The lowest cost a random search gives is at most the cost of every plan
/// that its runs of draws deal in full: run `k` deals plan `draws[k]`, and
/// each run takes at least a batch of draws.
pub proof fn lemma_rs_best_below_dealt(
    m: Costs,
    ps: Seq<u8>,
    start: Trucks,
    draws: Seq<Trucks>,
    best: int,
    found: int,
    segs: Seq<Seq<u64>>,
)
    requires
        rs_trace(m, ps, start, draws, best, found, segs),
    ensures
        forall|k: int|
            0 <= k < N_EVAL && deal_draws(ps, #[trigger] segs[k]).1 == ps.len() ==> plan_matches(draws[k], deal_draws(ps, segs[k]).0)
                && best <= trucks_cost(m, draws[k]),
        forall|k: int| 0 <= k < N_EVAL ==> (#[trigger] segs[k]).len() >= BATCH,
{
    assert forall|k: int| 0 <= k < N_EVAL implies (#[trigger] segs[k]).len() >= BATCH by {
        assert(batch_drawn(ps, segs[k], draws[k]));
    }
    assert forall|k: int|
        0 <= k < N_EVAL && deal_draws(ps, #[trigger] segs[k]).1 == ps.len() implies plan_matches(draws[k], deal_draws(ps, segs[k]).0)
            && best <= trucks_cost(m, draws[k]) by {
        assert(batch_drawn(ps, segs[k], draws[k]));
    }
}

/// Random search over plans.
pub struct RandomSearch<'a> {
    cost_mat: &'a Costs,
    palets: Palets,
    #[allow(unused)]
    trucks: Trucks,
}

/// Number of trucks drawn at a time by `RandomSearch`.
pub const BATCH: usize = 20;

impl<'a> RandomSearch<'a> {
    /// The cost matrix.
    pub closed spec fn costs(&self) -> Costs {
        *self.cost_mat
    }

    /// The palets.
    pub closed spec fn palets(&self) -> Seq<u8> {
        self.palets@
    }

    pub fn new(cost_mat: &'a Costs, palets: Palets) -> (s: Self)
        ensures
            s.costs() == *cost_mat,
            s.palets() == palets@,
    {
        RandomSearch { cost_mat, palets, trucks: [[0u8; TRUCK_CAP]; N_TRUCKS] }
    }

    /// Starts from a plan of `gen_sol`, then draws `N_EVAL` plans by batches of
    /// random trucks; gives the lowest cost met and the draw that met it.
    pub fn run(&mut self, rng: &mut RNG) -> (res: (usize, usize))
        requires
            costs_fit(old(self).costs()),
            valid_palets(old(self).palets()),
            old(self).palets().len() == N_TRUCKS * TRUCK_CAP,
        ensures
            exists|t: Trucks|
                flat(t).to_multiset() == old(self).palets().to_multiset() && valid_trucks(t) && res.0
                    == #[trigger] trucks_cost(old(self).costs(), t),
            res.1 < N_EVAL,
            old(rng).draws().len() + N_EVAL * BATCH <= final(rng).draws().len(),
            exists|start: Trucks, draws: Seq<Trucks>, s0: Seq<u64>, segs: Seq<Seq<u64>>|
                flat(start).to_multiset() == old(self).palets().to_multiset()
                    && is_dealt(old(self).palets(), start)
                    && #[trigger] open_drawn(old(self).palets(), s0, start)
                    && final(rng).draws() == old(rng).draws() + s0 + segs.flatten()
                    && #[trigger] rs_trace(
                    old(self).costs(),
                    old(self).palets(),
                    start,
                    draws,
                    res.0 as int,
                    res.1 as int,
                    segs,
                ),
    {
        let ghost m = self.costs();
        let ghost ps = self.palets();
        let ghost d0 = rng.draws();
        let mut best_sol = self.gen_sol(rng);
        let ghost s0 = drawn_since(d0, rng.draws());
        let ghost d1 = rng.draws();
        let ghost mut segs: Seq<Seq<u64>> = Seq::empty();
        proof {
            assert(d1 =~= d0 + s0);
            assert(d1 =~= d0 + s0 + segs.flatten());
        }
        proof {
            lemma_cost_fits(m, best_sol);
        }
        let mut best_cost = cost(self.cost_mat, &best_sol);
        let mut best_it: usize = 0;
        let mut it: usize = 0;
        let ghost start = best_sol;
        let ghost mut draws: Seq<Trucks> = Seq::empty();
        while it < N_EVAL
            invariant
                it <= N_EVAL,
                best_it < N_EVAL,
                draws.len() == it,
                segs.len() == it,
                rng.draws() == d0 + s0 + segs.flatten(),
                d0 == old(rng).draws(),
                d0.len() + s0.len() + it * BATCH <= rng.draws().len(),
                forall|k: int| 0 <= k < it ==> #[trigger] batch_drawn(ps, segs[k], draws[k]),
                flat(start).to_multiset() == ps.to_multiset(),
                forall|k: int| 0 <= k < it ==> flat(#[trigger] draws[k]).to_multiset() == ps.to_multiset(),
                forall|k: int| 0 <= k < it ==> #[trigger] is_dealt(ps, draws[k]),
                is_dealt(ps, start),
                best_cost <= trucks_cost(m, start),
                forall|k: int| 0 <= k < it ==> best_cost <= trucks_cost(m, #[trigger] draws[k]),
                best_cost < trucks_cost(m, start) ==> {
                    &&& best_it < it
                    &&& trucks_cost(m, draws[best_it as int]) == best_cost
                    &&& forall|k: int| 0 <= k < best_it ==> best_cost < trucks_cost(m, #[trigger] draws[k])
                },
                best_cost == trucks_cost(m, start) ==> best_it == 0,
                m == self.costs(),
                ps == self.palets(),
                costs_fit(m),
                valid_palets(ps),
                ps.len() == N_TRUCKS * TRUCK_CAP,
                flat(best_sol).to_multiset() == ps.to_multiset(),
                valid_trucks(best_sol),
                best_cost == trucks_cost(m, best_sol),
            decreases N_EVAL - it,
        {
            let ghost dprev = rng.draws();
            let sol = self.gen_sol2(rng);
            let ghost seg = drawn_since(dprev, rng.draws());
            let ghost old_segs = segs;
            proof {
                lemma_cost_fits(m, sol);
            }
            let new_cost = cost(self.cost_mat, &sol);
            let ghost old_draws = draws;
            if new_cost < best_cost {
                best_sol = sol;
                best_cost = new_cost;
                best_it = it;
            }
            proof {
                draws = draws.push(sol);
                segs = segs.push(seg);
                old_segs.lemma_flatten_push(seg);
                assert(rng.draws() =~= dprev + seg);
                assert(rng.draws() =~= d0 + s0 + segs.flatten());
                assert forall|k: int| 0 <= k < it + 1 implies #[trigger] batch_drawn(ps, segs[k], draws[k]) by {
                    if k < it {
                        assert(draws[k] == old_draws[k]);
                        assert(segs[k] == old_segs[k]);
                    }
                }
                assert forall|k: int| 0 <= k < it + 1 implies flat(#[trigger] draws[k]).to_multiset() == ps.to_multiset() by {
                    if k < it {
                        assert(draws[k] == old_draws[k]);
                    }
                }
                assert forall|k: int| 0 <= k < it + 1 implies #[trigger] is_dealt(ps, draws[k]) by {
                    if k < it {
                        assert(draws[k] == old_draws[k]);
                    }
                }
                assert forall|k: int| 0 <= k < it + 1 implies best_cost <= trucks_cost(m, #[trigger] draws[k]) by {
                    if k < it {
                        assert(draws[k] == old_draws[k]);
                    }
                }
                if best_cost < trucks_cost(m, start) {
                    assert(draws[best_it as int] == if best_it < it { old_draws[best_it as int] } else { sol });
                    assert forall|k: int| 0 <= k < best_it implies best_cost < trucks_cost(m, #[trigger] draws[k]) by {
                        assert(draws[k] == old_draws[k]);
                    }
                }
            }
            it = it + 1;
        }
        let res = (best_cost, best_it);
        proof {
            assert(rs_trace(m, ps, start, draws, res.0 as int, res.1 as int, segs));
        }
        res
    }

    /// Palets placed in order; for each batch, `BATCH` trucks are drawn and
    /// each drawn truck with room takes the next palet, until every palet is
    /// placed. Should `usize::MAX` batches not suffice, the palets left go to
    /// the first trucks with room.
    fn gen_sol2(&mut self, rng: &mut RNG) -> (sol: Trucks)
        requires
            valid_palets(old(self).palets()),
            old(self).palets().len() == N_TRUCKS * TRUCK_CAP,
        ensures
            final(self).costs() == old(self).costs(),
            final(self).palets() == old(self).palets(),
            flat(sol).to_multiset() == old(self).palets().to_multiset(),
            valid_trucks(sol),
            is_dealt(old(self).palets(), sol),
            old(rng).draws().is_prefix_of(final(rng).draws()),
            batch_drawn(old(self).palets(), drawn_since(old(rng).draws(), final(rng).draws()), sol),
    {
        let ghost ps = self.palets();
        let ghost d0 = rng.draws();
        let mut new_sol: Trucks = [[0u8; TRUCK_CAP]; N_TRUCKS];
        let mut lens: [usize; N_TRUCKS] = [0usize; N_TRUCKS];
        let mut pal_indx: usize = 0;
        let ghost mut choice: Seq<int> = Seq::empty();
        let ghost mut loads: Seq<Seq<Seq<u8>>> = seq![no_loads()];
        proof {
            assert(plan_matches(new_sol, no_loads()));
        }
        proof {
            assert(ps.take(0) =~= Seq::<u8>::empty());
            assert forall|v: u8| #[trigger] flat(new_sol).to_multiset().count(v) == ps.take(0).to_multiset().count(v) + if v == 0 {
                (N_TRUCKS * TRUCK_CAP) as int - 0
            } else {
                0
            } by {
                assert(flat(new_sol) =~= Seq::new((N_TRUCKS * TRUCK_CAP) as nat, |i: int| 0u8));
                lemma_zeros_count(v);
            }
            lemma_sum_zero(lens@, N_TRUCKS as int);
        }
        let mut done = false;
        let mut fuel: usize = usize::MAX;
        while !done && fuel > 0
            invariant
                ps == self.palets(),
                self.cost_mat == old(self).cost_mat,
                self.palets == old(self).palets,
                ps.len() == N_TRUCKS * TRUCK_CAP,
                pal_indx <= ps.len(),
                done ==> pal_indx >= ps.len(),
                !done ==> pal_indx < ps.len(),
                done ==> fuel < usize::MAX,
                d0 == old(rng).draws(),
                d0.is_prefix_of(rng.draws()),
                drawn_since(d0, rng.draws()).len() == BATCH * (usize::MAX - fuel),
                deal_draws(ps, drawn_since(d0, rng.draws())).0 == loads[pal_indx as int],
                deal_draws(ps, drawn_since(d0, rng.draws())).1 == pal_indx,
                drawn_since(d0, rng.draws()).len() > 0 ==> deal_draws(
                    ps,
                    drawn_since(d0, rng.draws()).take(drawn_since(d0, rng.draws()).len() - BATCH),
                ).1 < ps.len(),
                forall|t: int| 0 <= t < N_TRUCKS ==> #[trigger] lens[t] <= TRUCK_CAP,
                sum_upto(lens@, N_TRUCKS as int) == pal_indx,
                forall|t: int, j: int| 0 <= t < N_TRUCKS && lens[t] <= j < TRUCK_CAP ==> #[trigger] new_sol[t][j] == 0,
                loaded_with(new_sol, ps.take(pal_indx as int)),
                choice.len() == pal_indx,
                loads.len() == pal_indx + 1,
                loads[0] == no_loads(),
                forall|q: int| 0 <= q < pal_indx ==> #[trigger] deal_step(ps, choice, loads, q),
                plan_matches(new_sol, loads[pal_indx as int]),
                forall|t: int| 0 <= t < N_TRUCKS ==> #[trigger] lens[t] == loads[pal_indx as int][t].len(),
            decreases fuel,
        {
            let ghost bstart = rng.draws();
            let ghost pre = drawn_since(d0, bstart);
            let mut to_truck: Vec<usize> = Vec::new();
            let mut d: usize = 0;
            while d < BATCH
                invariant
                    d <= BATCH,
                    to_truck@.len() == d,
                    forall|x: int| 0 <= x < d ==> (#[trigger] to_truck@[x]) < N_TRUCKS,
                    bstart.is_prefix_of(rng.draws()),
                    rng.draws().len() == bstart.len() + d,
                    forall|x: int| 0 <= x < d ==> #[trigger] to_truck@[x] == drawn_below(rng.draws()[bstart.len() + x], N_TRUCKS),
                decreases BATCH - d,
            {
                let ghost before = rng.draws();
                to_truck.push(rng.next() % N_TRUCKS);
                proof {
                    assert(rng.draws() =~= before.push(rng.draws().last()));
                    assert forall|x: int| 0 <= x < d + 1 implies #[trigger] to_truck@[x] == drawn_below(rng.draws()[bstart.len() + x], N_TRUCKS) by {
                        if x < d {
                            assert(rng.draws()[bstart.len() + x] == before[bstart.len() + x]);
                        }
                    }
                }
                d = d + 1;
            }
            let ghost bd = drawn_since(bstart, rng.draws());
            proof {
                assert(d0.is_prefix_of(rng.draws()));
                assert(drawn_since(d0, rng.draws()) =~= pre + bd);
                assert forall|x: int| 0 <= x < BATCH implies #[trigger] to_truck@[x] == drawn_below(bd[x], N_TRUCKS) by {
                    assert(bd[x] == rng.draws()[bstart.len() + x]);
                }
                assert(pre + bd.take(0) =~= pre);
            }
            let mut i: usize = 0;
            while i < BATCH
                invariant
                    i <= BATCH,
                    to_truck@.len() == BATCH,
                    forall|x: int| 0 <= x < BATCH ==> (#[trigger] to_truck@[x]) < N_TRUCKS,
                    forall|x: int| 0 <= x < BATCH ==> #[trigger] to_truck@[x] == drawn_below(bd[x], N_TRUCKS),
                    bd.len() == BATCH,
                    deal_draws(ps, pre + bd.take(i as int)).0 == loads[pal_indx as int],
                    deal_draws(ps, pre + bd.take(i as int)).1 == pal_indx,
                    ps == self.palets(),
                    ps.len() == N_TRUCKS * TRUCK_CAP,
                    pal_indx <= ps.len(),
                    forall|t: int| 0 <= t < N_TRUCKS ==> #[trigger] lens[t] <= TRUCK_CAP,
                    sum_upto(lens@, N_TRUCKS as int) == pal_indx,
                    forall|t: int, j: int| 0 <= t < N_TRUCKS && lens[t] <= j < TRUCK_CAP ==> #[trigger] new_sol[t][j] == 0,
                    loaded_with(new_sol, ps.take(pal_indx as int)),
                    choice.len() == pal_indx,
                    loads.len() == pal_indx + 1,
                    loads[0] == no_loads(),
                    forall|q: int| 0 <= q < pal_indx ==> #[trigger] deal_step(ps, choice, loads, q),
                    plan_matches(new_sol, loads[pal_indx as int]),
                    forall|t: int| 0 <= t < N_TRUCKS ==> #[trigger] lens[t] == loads[pal_indx as int][t].len(),
                decreases BATCH - i,
            {
                let t = to_truck[i];
                let last = lens[t];
                proof {
                    let x = pre + bd.take(i + 1);
                    assert(x.drop_last() =~= pre + bd.take(i as int));
                    assert(x.last() == bd[i as int]);
                    if last < TRUCK_CAP {
                        lemma_open_sum_lt(lens@, N_TRUCKS as int, t as int);
                    }
                }
                if last < TRUCK_CAP {
                    proof {
                        lemma_open_sum_lt(lens@, N_TRUCKS as int, t as int);
                    }
                    let pal = self.palets[pal_indx];
                    let ghost old_sol = new_sol;
                    let ghost old_lens = lens@;
                    new_sol[t][last] = pal;
                    lens[t] = last + 1;
                    pal_indx = pal_indx + 1;
                    proof {
                        lemma_place(old_sol, new_sol, old_lens, lens@, ps, t as int, last as int, pal_indx as int);
                        let k = pal_indx - 1;
                        lemma_deal_next(ps, choice, loads, k as int, t as int, old_sol, new_sol);
                        loads = loads.push(loads[k as int].update(t as int, loads[k as int][t as int].push(ps[k as int])));
                        choice = choice.push(t as int);
                    }
                }
                i = i + 1;
            }
            proof {
                assert(bd.take(BATCH as int) =~= bd);
                let dn = drawn_since(d0, rng.draws());
                assert(dn =~= pre + bd);
                assert(dn.take(dn.len() - BATCH) =~= pre);
            }
            done = pal_indx >= self.palets.len();
            fuel = fuel - 1;
        }
        let ghost dall = drawn_since(d0, rng.draws());
        let ghost sol_after_draws = new_sol;
        let ghost dealt_by_draws = pal_indx >= ps.len();
        while pal_indx < self.palets.len()
            invariant
                dealt_by_draws ==> new_sol == sol_after_draws && pal_indx >= ps.len(),
                ps == self.palets(),
                self.cost_mat == old(self).cost_mat,
                self.palets == old(self).palets,
                ps.len() == N_TRUCKS * TRUCK_CAP,
                pal_indx <= ps.len(),
                forall|t: int| 0 <= t < N_TRUCKS ==> #[trigger] lens[t] <= TRUCK_CAP,
                sum_upto(lens@, N_TRUCKS as int) == pal_indx,
                forall|t: int, j: int| 0 <= t < N_TRUCKS && lens[t] <= j < TRUCK_CAP ==> #[trigger] new_sol[t][j] == 0,
                loaded_with(new_sol, ps.take(pal_indx as int)),
                choice.len() == pal_indx,
                loads.len() == pal_indx + 1,
                loads[0] == no_loads(),
                forall|q: int| 0 <= q < pal_indx ==> #[trigger] deal_step(ps, choice, loads, q),
                plan_matches(new_sol, loads[pal_indx as int]),
                forall|t: int| 0 <= t < N_TRUCKS ==> #[trigger] lens[t] == loads[pal_indx as int][t].len(),
            decreases ps.len() - pal_indx,
        {
            proof {
                if forall|j: int| 0 <= j < N_TRUCKS ==> !(#[trigger] lens[j] < TRUCK_CAP) {
                    lemma_full_sum(lens@, N_TRUCKS as int);
                }
            }
            let mut t: usize = 0;
            while lens[t] >= TRUCK_CAP
                invariant
                    0 <= t < N_TRUCKS,
                    exists|j: int| t <= j < N_TRUCKS && #[trigger] lens[j] < TRUCK_CAP,
                decreases N_TRUCKS - t,
            {
                t = t + 1;
            }
            let last = lens[t];
            let pal = self.palets[pal_indx];
            let ghost old_sol = new_sol;
            let ghost old_lens = lens@;
            new_sol[t][last] = pal;
            lens[t] = last + 1;
            pal_indx = pal_indx + 1;
            proof {
                lemma_place(old_sol, new_sol, old_lens, lens@, ps, t as int, last as int, pal_indx as int);
                let k = pal_indx - 1;
                lemma_deal_next(ps, choice, loads, k as int, t as int, old_sol, new_sol);
                loads = loads.push(loads[k as int].update(t as int, loads[k as int][t as int].push(ps[k as int])));
                choice = choice.push(t as int);
            }
        }
        proof {
            assert(ps.take(pal_indx as int) =~= ps);
            lemma_loaded_full(new_sol, ps);
            lemma_drawn_valid(new_sol, ps);
            assert(dealt(ps, new_sol, choice, loads));
            assert(drawn_since(d0, rng.draws()) == dall);
            if dealt_by_draws {
                assert(new_sol == sol_after_draws);
            }
        }
        new_sol
    }

    /// A plan as `gen_sol` builds it from these palets.
    fn gen_sol(&mut self, rng: &mut RNG) -> (sol: Trucks)
        requires
            valid_palets(old(self).palets()),
            old(self).palets().len() == N_TRUCKS * TRUCK_CAP,
        ensures
            final(self).costs() == old(self).costs(),
            final(self).palets() == old(self).palets(),
            flat(sol).to_multiset() == old(self).palets().to_multiset(),
            valid_trucks(sol),
            is_dealt(old(self).palets(), sol),
            old(rng).draws().is_prefix_of(final(rng).draws()),
            open_drawn(old(self).palets(), drawn_since(old(rng).draws(), final(rng).draws()), sol),
    {
        let sol = gen_sol(&self.palets, rng);
        proof {
            lemma_loaded_full(sol, self.palets@);
            lemma_drawn_valid(sol, self.palets@);
        }
        sol
    }
}

/// Placing palet `ps[k - 1]` in the first empty slot `last` of truck `t`
/// keeps the plan loaded with the first `k` palets.
proof fn lemma_place(
    old_sol: Trucks,
    new_sol: Trucks,
    old_lens: Seq<usize>,
    lens: Seq<usize>,
    ps: Seq<u8>,
    t: int,
    last: int,
    k: int,
)
    requires
        0 <= t < N_TRUCKS,
        0 <= last < TRUCK_CAP,
        1 <= k <= ps.len() <= N_TRUCKS * TRUCK_CAP,
        old_lens.len() == N_TRUCKS,
        old_lens[t] == last,
        lens == old_lens.update(t, (last + 1) as usize),
        old_sol[t][last] == 0,
        set_slot(old_sol, new_sol, t, last, ps[k - 1]),
        sum_upto(old_lens, N_TRUCKS as int) == k - 1,
        loaded_with(old_sol, ps.take(k - 1)),
        forall|a: int, j: int| 0 <= a < N_TRUCKS && old_lens[a] <= j < TRUCK_CAP ==> #[trigger] old_sol[a][j] == 0,
        forall|a: int| 0 <= a < N_TRUCKS ==> #[trigger] old_lens[a] <= TRUCK_CAP,
    ensures
        sum_upto(lens, N_TRUCKS as int) == k,
        loaded_with(new_sol, ps.take(k)),
        forall|a: int, j: int| 0 <= a < N_TRUCKS && lens[a] <= j < TRUCK_CAP ==> #[trigger] new_sol[a][j] == 0,
        forall|a: int| 0 <= a < N_TRUCKS ==> #[trigger] lens[a] <= TRUCK_CAP,
{
    let pal = ps[k - 1];
    lemma_flat_set(old_sol, new_sol, t, last, pal);
    lemma_sum_update(old_lens, N_TRUCKS as int, t, (last + 1) as usize);
    let fo = flat(old_sol);
    let sl = slot(t, last);
    vstd::seq_lib::to_multiset_update(fo, sl, pal);
    assert(ps.take(k) =~= ps.take(k - 1).push(pal));
    vstd::seq_lib::to_multiset_build(ps.take(k - 1), pal);
    assert(fo.to_multiset().count(0) > 0);
    assert forall|a: int, j: int| 0 <= a < N_TRUCKS && lens[a] <= j < TRUCK_CAP implies #[trigger] new_sol[a][j] == 0 by {
        assert(new_sol[a][j] == old_sol[a][j]);
    }
}

} // verus!
