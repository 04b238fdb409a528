//! Greedy loading: each palet goes to the truck with room that is cheapest
//! to reach from the last palet already on it.

use super::model::{
    append_cost, costs_fit, greedy_choice, greedy_loads, leg, max_leg, no_loads, plan_matches,
    valid_palet, valid_palets, valid_trucks,
};
use super::{cost, Costs, Palets, Trucks, N_TRUCKS, TRUCK_CAP};
use vstd::prelude::*;

verus! {

/// Greedy loading of the palets in their given order.
pub struct Greedy<'a> {
    cost_mat: &'a Costs,
    palets: Palets,
    #[allow(unused)]
    trucks: Trucks,
}

impl<'a> Greedy<'a> {
    /// The cost matrix the plan is priced with.
    pub closed spec fn costs(&self) -> Costs {
        *self.cost_mat
    }

    /// The palets to load.
    pub closed spec fn palets(&self) -> Seq<u8> {
        self.palets@
    }

    pub fn new(cost_mat: &'a Costs, palets: Palets) -> (s: Self)
        ensures
            s.costs() == *cost_mat,
            s.palets() == palets@,
    {
        Greedy { cost_mat, palets, trucks: [[0u8; TRUCK_CAP]; N_TRUCKS] }
    }

    /// The greedy plan: every palet, in order, goes to the first truck with
    /// room whose extra leg (from its last palet, or from the depot) is the
    /// lowest. The plan must fill every slot, as its cost is taken at the end.
    pub fn run(&self) -> (sol: Trucks)
        requires
            costs_fit(self.costs()),
            valid_palets(self.palets()),
            self.palets().len() == N_TRUCKS * TRUCK_CAP,
        ensures
            plan_matches(sol, greedy_loads(self.costs(), self.palets(), self.palets().len() as int)),
            valid_trucks(sol),
    {
        let mut sol: Trucks = [[0u8; TRUCK_CAP]; N_TRUCKS];
        let mut lens: [usize; N_TRUCKS] = [0usize; N_TRUCKS];
        let ghost m = self.costs();
        let ghost ps = self.palets();
        let mut k: usize = 0;
        proof {
            assert(plan_matches(sol, no_loads()));
            lemma_total_zero(no_loads(), N_TRUCKS as int);
        }
        while k < self.palets.len()
            invariant
                k <= ps.len(),
                m == self.costs(),
                ps == self.palets(),
                costs_fit(m),
                valid_palets(ps),
                ps.len() == N_TRUCKS * TRUCK_CAP,
                plan_matches(sol, greedy_loads(m, ps, k as int)),
                forall|i: int| 0 <= i < N_TRUCKS ==> #[trigger] lens[i] == greedy_loads(m, ps, k as int)[i].len(),
                loads_total(greedy_loads(m, ps, k as int), N_TRUCKS as int) == k,
                forall|i: int, j: int| 0 <= i < N_TRUCKS && 0 <= j < lens[i] ==> valid_palet(#[trigger] sol[i][j]),
            decreases ps.len() - k,
        {
            let ghost loads = greedy_loads(m, ps, k as int);
            let pal = self.palets[k];
            assert(valid_palet(ps[k as int]));
            let mut best_truck: usize = 0;
            let mut best_cost: usize = usize::MAX;
            let mut i: usize = 0;
            while i < N_TRUCKS
                invariant
                    i <= N_TRUCKS,
                    best_truck < N_TRUCKS,
                    costs_fit(m),
                    valid_palet(pal),
                    m == self.costs(),
                    plan_matches(sol, loads),
                    forall|t: int| 0 <= t < N_TRUCKS ==> #[trigger] lens[t] == loads[t].len(),
                    forall|a: int, j: int| 0 <= a < N_TRUCKS && 0 <= j < lens[a] ==> valid_palet(#[trigger] sol[a][j]),
                    greedy_choice(m, loads, pal, i as int, best_truck as int, best_cost as int)
                        == greedy_choice(m, loads, pal, 0, 0, usize::MAX as int),
                    best_cost < usize::MAX ==> lens[best_truck as int] < TRUCK_CAP,
                    (exists|j: int| 0 <= j < i && #[trigger] lens[j] < TRUCK_CAP) ==> best_cost < usize::MAX,
                decreases N_TRUCKS - i,
            {
                let len = lens[i];
                if len < TRUCK_CAP {
                    let c = if len == 0 {
                        proof {
                            assert(leg(m, 0, pal - 1) <= max_leg());
                        }
                        self.cost_mat[0][(pal - 1) as usize]
                    } else {
                        let last = sol[i][len - 1];
                        proof {
                            assert(loads[i as int].last() == last);
                            assert(leg(m, last - 1, pal - 1) <= max_leg());
                        }
                        self.cost_mat[(last - 1) as usize][(pal - 1) as usize]
                    };
                    proof {
                        assert(c == append_cost(m, loads[i as int], pal));
                        super::model::lemma_max_leg();
                    }
                    if c < best_cost {
                        best_cost = c;
                        best_truck = i;
                    }
                }
                i = i + 1;
            }
            proof {
                if forall|j: int| 0 <= j < N_TRUCKS ==> !(#[trigger] lens[j] < TRUCK_CAP) {
                    assert forall|t: int| 0 <= t < N_TRUCKS implies loads[t].len() >= TRUCK_CAP by {
                        assert(lens[t] == loads[t].len());
                    }
                    lemma_full_total(loads, N_TRUCKS as int);
                }
                assert(exists|j: int| 0 <= j < N_TRUCKS && #[trigger] lens[j] < TRUCK_CAP);
            }
            let last = lens[best_truck];
            let ghost old_sol = sol;
            sol[best_truck][last] = pal;
            lens[best_truck] = last + 1;
            k = k + 1;
            proof {
                let next = greedy_loads(m, ps, k as int);
                assert(ps[k - 1] == pal);
                assert(next == loads.update(best_truck as int, loads[best_truck as int].push(pal)));
                lemma_total_push(loads, N_TRUCKS as int, best_truck as int, pal);
                assert forall|a: int, j: int| 0 <= a < N_TRUCKS && 0 <= j < TRUCK_CAP implies #[trigger] sol[a][j] == if j < next[a].len() {
                    next[a][j]
                } else {
                    0
                } by {
                    if a == best_truck as int {
                        if j < last {
                            assert(sol[a][j] == old_sol[a][j]);
                        }
                    } else {
                        assert(sol[a][j] == old_sol[a][j]);
                    }
                }
            }
        }
        proof {
            assert(valid_trucks(sol)) by {
                assert forall|a: int, j: int| 0 <= a < N_TRUCKS && 0 <= j < TRUCK_CAP implies valid_palet(#[trigger] sol[a][j]) by {
                    if lens[a] < TRUCK_CAP {
                        lemma_full_total_lt(greedy_loads(m, ps, k as int), N_TRUCKS as int, a);
                    }
                }
            }
            super::model::lemma_cost_fits(m, sol);
        }
        let _c = cost(self.cost_mat, &sol);
        sol
    }
}

/// Number of palets on the first `n` trucks.
pub open spec fn loads_total(loads: Seq<Seq<u8>>, n: int) -> int
    decreases n,
{
    if n <= 0 {
        0
    } else {
        loads_total(loads, n - 1) + loads[n - 1].len()
    }
}

proof fn lemma_total_zero(loads: Seq<Seq<u8>>, n: int)
    requires
        0 <= n <= loads.len(),
        forall|t: int| 0 <= t < n ==> #[trigger] loads[t].len() == 0,
    ensures
        loads_total(loads, n) == 0,
    decreases n,
{
    if n > 0 {
        lemma_total_zero(loads, n - 1);
    }
}

proof fn lemma_full_total(loads: Seq<Seq<u8>>, n: int)
    requires
        0 <= n <= loads.len(),
        forall|t: int| 0 <= t < n ==> loads[t].len() >= TRUCK_CAP,
    ensures
        loads_total(loads, n) >= n * TRUCK_CAP,
    decreases n,
{
    if n > 0 {
        lemma_full_total(loads, n - 1);
    }
}

/// Where every load fits a truck, one truck short of a full load leaves the
/// total short of all trucks full.
proof fn lemma_full_total_lt(loads: Seq<Seq<u8>>, n: int, a: int)
    requires
        0 <= a < n <= loads.len(),
        forall|t: int| 0 <= t < n ==> #[trigger] loads[t].len() <= TRUCK_CAP,
        loads[a].len() < TRUCK_CAP,
    ensures
        loads_total(loads, n) < n * TRUCK_CAP,
    decreases n,
{
    if n - 1 == a {
        lemma_total_le(loads, n - 1);
    } else {
        lemma_full_total_lt(loads, n - 1, a);
    }
}

proof fn lemma_total_le(loads: Seq<Seq<u8>>, n: int)
    requires
        0 <= n <= loads.len(),
        forall|t: int| 0 <= t < n ==> #[trigger] loads[t].len() <= TRUCK_CAP,
    ensures
        loads_total(loads, n) <= n * TRUCK_CAP,
    decreases n,
{
    if n > 0 {
        lemma_total_le(loads, n - 1);
    }
}

proof fn lemma_total_push(loads: Seq<Seq<u8>>, n: int, t: int, p: u8)
    requires
        0 <= t < n <= loads.len(),
    ensures
        loads_total(loads.update(t, loads[t].push(p)), n) == loads_total(loads, n) + 1,
    decreases n,
{
    if n - 1 != t {
        lemma_total_push(loads, n - 1, t, p);
    } else {
        lemma_total_same(loads, loads.update(t, loads[t].push(p)), n - 1);
    }
}

proof fn lemma_total_same(a: Seq<Seq<u8>>, b: Seq<Seq<u8>>, n: int)
    requires
        0 <= n <= a.len(),
        n <= b.len(),
        forall|i: int| 0 <= i < n ==> a[i].len() == b[i].len(),
    ensures
        loads_total(a, n) == loads_total(b, n),
    decreases n,
{
    if n > 0 {
        lemma_total_same(a, b, n - 1);
    }
}

} // verus!
