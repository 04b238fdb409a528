//! A greedy plan built truck by truck: each truck chains the palets nearest to
//! one another.

use super::model::{costs_ok, leg, plan_matches, valid_palets};
use super::{Costs, Palets, Trucks, N, N_TRUCKS, TRUCK_CAP};
use vstd::prelude::*;

verus! {

/// Index of the first palet among `pals[..n]` whose city is nearest to city
/// `cur` (palets and cities counted from 1).
pub open spec fn nearest_upto(m: Costs, cur: u8, pals: Seq<u8>, n: int) -> int
    decreases n,
{
    if n <= 1 {
        0
    } else {
        let i = nearest_upto(m, cur, pals, n - 1);
        if leg(m, cur - 1, pals[n - 1] - 1) < leg(m, cur - 1, pals[i] - 1) {
            n - 1
        } else {
            i
        }
    }
}

/// Index of the first palet of `pals` whose city is nearest to city `cur`.
pub open spec fn nearest(m: Costs, cur: u8, pals: Seq<u8>) -> int {
    nearest_upto(m, cur, pals, pals.len() as int)
}

/// Takes `k` palets out of `pals`, each the nearest to the city of the one
/// taken before it (to city `cur` for the first): the palets taken, in order,
/// and those left.
pub open spec fn chain(m: Costs, cur: u8, pals: Seq<u8>, k: nat) -> (Seq<u8>, Seq<u8>)
    decreases k,
{
    if k == 0 {
        (Seq::empty(), pals)
    } else {
        let (row, rest) = chain(m, cur, pals, (k - 1) as nat);
        let at = if row.len() == 0 {
            cur
        } else {
            row.last()
        };
        let i = nearest(m, at, rest);
        (row.push(rest[i]), rest.remove(i))
    }
}

/// Loads of the first `t` trucks, and the palets left: each truck takes the
/// last palet left as its starting city, leaves it out, and chains
/// `TRUCK_CAP` palets from there.
pub open spec fn exp_loads(m: Costs, ps: Seq<u8>, t: nat) -> (Seq<Seq<u8>>, Seq<u8>)
    decreases t,
{
    if t == 0 {
        (Seq::empty(), ps)
    } else {
        let (rows, rest) = exp_loads(m, ps, (t - 1) as nat);
        let (row, left) = chain(m, rest.last(), rest.drop_last(), TRUCK_CAP as nat);
        (rows.push(row), left)
    }
}

/// `chain` takes `k` palets and leaves the others.
proof fn lemma_chain_len(m: Costs, cur: u8, pals: Seq<u8>, k: nat)
    requires
        k <= pals.len(),
    ensures
        chain(m, cur, pals, k).0.len() == k,
        chain(m, cur, pals, k).1.len() == pals.len() - k,
    decreases k,
{
    if k > 0 {
        lemma_chain_len(m, cur, pals, (k - 1) as nat);
        let (row, rest) = chain(m, cur, pals, (k - 1) as nat);
        let at = if row.len() == 0 {
            cur
        } else {
            row.last()
        };
        lemma_nearest_in(m, at, rest, rest.len() as int);
    }
}

/// The nearest palet is one of the first `n`.
proof fn lemma_nearest_in(m: Costs, cur: u8, pals: Seq<u8>, n: int)
    requires
        1 <= n,
    ensures
        0 <= nearest_upto(m, cur, pals, n) < n,
    decreases n,
{
    if n > 1 {
        lemma_nearest_in(m, cur, pals, n - 1);
    }
}

/// `exp_loads` gives `t` loads of `TRUCK_CAP` palets and leaves
/// `TRUCK_CAP + 1` palets fewer per truck.
proof fn lemma_exp_loads_len(m: Costs, ps: Seq<u8>, t: nat)
    requires
        t * (TRUCK_CAP + 1) <= ps.len(),
    ensures
        exp_loads(m, ps, t).0.len() == t,
        forall|i: int| 0 <= i < t ==> #[trigger] exp_loads(m, ps, t).0[i].len() == TRUCK_CAP,
        exp_loads(m, ps, t).1.len() == ps.len() - t * (TRUCK_CAP + 1),
    decreases t,
{
    if t > 0 {
        assert((t - 1) * (TRUCK_CAP + 1) <= ps.len()) by (nonlinear_arith)
            requires
                t * (TRUCK_CAP + 1) <= ps.len(),
                t > 0,
        ;
        assert(t * (TRUCK_CAP + 1) == (t - 1) * (TRUCK_CAP + 1) + TRUCK_CAP + 1) by (nonlinear_arith);
        lemma_exp_loads_len(m, ps, (t - 1) as nat);
        let (rows, rest) = exp_loads(m, ps, (t - 1) as nat);
        assert(rest.len() >= TRUCK_CAP + 1);
        assert(rest.drop_last().len() == rest.len() - 1);
        lemma_chain_len(m, rest.last(), rest.drop_last(), TRUCK_CAP as nat);
        let (row, left) = chain(m, rest.last(), rest.drop_last(), TRUCK_CAP as nat);
        assert(exp_loads(m, ps, t) == (rows.push(row), left));
        assert(left.len() == rest.len() - 1 - TRUCK_CAP);
        assert(rest.len() == ps.len() - (t - 1) * (TRUCK_CAP + 1));
        assert(left.len() == ps.len() - t * (TRUCK_CAP + 1));
    } else {
        assert(exp_loads(m, ps, t).1 == ps);
        assert(t * (TRUCK_CAP + 1) == 0) by (nonlinear_arith)
            requires
                t == 0,
        ;
    }
}

/// The greedy plan of truck chains.
pub struct GreedyExp<'a> {
    cost_mat: &'a Costs,
    palets: Palets,
    #[allow(unused)]
    trucks: Trucks,
}

impl<'a> GreedyExp<'a> {
    /// The cost matrix.
    pub closed spec fn costs(&self) -> Costs {
        *self.cost_mat
    }

    /// The palets.
    pub closed spec fn palets(&self) -> Seq<u8> {
        self.palets@
    }

    pub fn new(cost_mat: &'a Costs, palets: Palets) -> (s: Self)
        ensures
            s.costs() == *cost_mat,
            s.palets() == palets@,
    {
        GreedyExp { cost_mat, palets, trucks: [[0u8; TRUCK_CAP]; N_TRUCKS] }
    }

    /// The plan whose trucks are the chains of `exp_loads`. Each truck uses up
    /// `TRUCK_CAP + 1` palets, so the palets must number at least
    /// `N_TRUCKS * (TRUCK_CAP + 1)`.
    pub fn run(&self) -> (sol: Trucks)
        requires
            costs_ok(self.costs()),
            valid_palets(self.palets()),
            self.palets().len() >= N_TRUCKS * (TRUCK_CAP + 1),
        ensures
            plan_matches(sol, exp_loads(self.costs(), self.palets(), N_TRUCKS as nat).0),
    {
        let ghost m = self.costs();
        let ghost ps = self.palets();
        let mut sol: Trucks = [[0u8; TRUCK_CAP]; N_TRUCKS];
        let mut pals = self.palets.clone();
        let mut it: usize = 0;
        proof {
            assert(pals@ =~= ps);
        }
        while it < N_TRUCKS
            invariant
                m == *self.cost_mat,
                costs_ok(m),
                ps == self.palets@,
                ps.len() >= N_TRUCKS * (TRUCK_CAP + 1),
                it <= N_TRUCKS,
                pals@ == exp_loads(m, ps, it as nat).1,
                pals.len() == ps.len() - it * (TRUCK_CAP + 1),
                valid_palets(pals@),
                exp_loads(m, ps, it as nat).0.len() == it,
                forall|i: int, j: int|
                    0 <= i < it && 0 <= j < TRUCK_CAP ==> #[trigger] sol[i][j]
                        == exp_loads(m, ps, it as nat).0[i][j],
                forall|i: int, j: int|
                    it <= i < N_TRUCKS && 0 <= j < TRUCK_CAP ==> #[trigger] sol[i][j] == 0,
            decreases N_TRUCKS - it,
        {
            proof {
                assert(it * (TRUCK_CAP + 1) + TRUCK_CAP + 1 <= N_TRUCKS * (TRUCK_CAP + 1))
                    by (nonlinear_arith)
                    requires
                        it < N_TRUCKS,
                ;
                assert((it + 1) * (TRUCK_CAP + 1) == it * (TRUCK_CAP + 1) + TRUCK_CAP + 1)
                    by (nonlinear_arith);
                lemma_exp_loads_len(m, ps, it as nat);
                lemma_exp_loads_len(m, ps, (it + 1) as nat);
            }
            let ghost rest = pals@;
            let first = pals.pop().unwrap();
            let ghost base = pals@;
            proof {
                assert(base =~= rest.drop_last());
                assert(valid_palets(base));
            }
            let ghost sol0 = sol;
            let mut current_city = first;
            let mut k: usize = 0;
            while k < TRUCK_CAP
                invariant
                    m == *self.cost_mat,
                    costs_ok(m),
                    it < N_TRUCKS,
                    k <= TRUCK_CAP,
                    base.len() >= TRUCK_CAP,
                    pals@ == chain(m, first, base, k as nat).1,
                    pals.len() == base.len() - k,
                    chain(m, first, base, k as nat).0.len() == k,
                    valid_palets(pals@),
                    1 <= first <= N,
                    k == 0 ==> current_city == first,
                    k > 0 ==> current_city == chain(m, first, base, k as nat).0.last(),
                    1 <= current_city <= N,
                    forall|j: int| 0 <= j < k ==> #[trigger] sol[it as int][j] == chain(
                        m,
                        first,
                        base,
                        k as nat,
                    ).0[j],
                    forall|i: int, j: int|
                        0 <= i < N_TRUCKS && i != it && 0 <= j < TRUCK_CAP ==> #[trigger] sol[i][j]
                            == sol0[i][j],
                decreases TRUCK_CAP - k,
            {
                proof {
                    lemma_chain_len(m, first, base, (k + 1) as nat);
                }
                let ghost before = pals@;
                let index = self.nearest_index(current_city, &pals);
                let city = pals.remove(index);
                proof {
                    assert(before[index as int] == city);
                    assert(valid_palets(pals@)) by {
                        assert forall|q: int| 0 <= q < pals@.len() implies 1 <= #[trigger] pals@[q]
                            <= N by {
                            if q < index {
                                assert(pals@[q] == before[q]);
                            } else {
                                assert(pals@[q] == before[q + 1]);
                            }
                        }
                    }
                }
                sol[it][k] = city;
                current_city = city;
                k = k + 1;
            }
            proof {
                let rows = exp_loads(m, ps, it as nat).0;
                let row = chain(m, first, base, TRUCK_CAP as nat).0;
                assert(exp_loads(m, ps, (it + 1) as nat).0 == rows.push(row));
                assert(exp_loads(m, ps, (it + 1) as nat).1 == pals@);
            }
            it = it + 1;
        }
        proof {
            assert(N_TRUCKS * (TRUCK_CAP + 1) <= ps.len());
            lemma_exp_loads_len(m, ps, N_TRUCKS as nat);
        }
        sol
    }

    /// Index of the first palet of `pals` nearest to city `cur`.
    fn nearest_index(&self, cur: u8, pals: &Vec<u8>) -> (idx: usize)
        requires
            costs_ok(self.costs()),
            1 <= cur <= N,
            valid_palets(pals@),
            pals.len() >= 1,
        ensures
            idx == nearest(self.costs(), cur, pals@),
            idx < pals.len(),
    {
        let ghost m = self.costs();
        let c = (cur - 1) as usize;
        let mut best: usize = 0;
        let mut best_d = self.cost_mat[c][(pals[0] - 1) as usize];
        let mut i: usize = 1;
        while i < pals.len()
            invariant
                m == *self.cost_mat,
                costs_ok(m),
                c == cur - 1,
                c < N,
                valid_palets(pals@),
                1 <= i <= pals.len(),
                best < i,
                best == nearest_upto(m, cur, pals@, i as int),
                best_d == leg(m, cur - 1, pals@[best as int] - 1),
            decreases pals.len() - i,
        {
            let d = self.cost_mat[c][(pals[i] - 1) as usize];
            if d < best_d {
                best = i;
                best_d = d;
            }
            i = i + 1;
        }
        best
    }
}

} // verus!
