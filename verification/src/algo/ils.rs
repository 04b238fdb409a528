//! Iterated local search: a search from a mutated plan, ten times over.

use super::model::{
    costs_fit, flat, is_dealt, lemma_cost_fits, lemma_drawn_valid, lemma_loaded_full, lemma_same_load_valid,
    lemma_swap_same_load, same_load, swapped, trucks_cost, valid_palets, valid_trucks, drawn_below, drawn_since,
    redrawn,
};
use super::{cost, gen_sol, open_drawn, Costs, Palets, Trucks, N_TRUCKS, TRUCK_CAP};
use crate::rng::RNG;
use vstd::prelude::*;

verus! {

broadcast use vstd::multiset::group_multiset_properties;

/// Iterated local search over the palets.
pub struct Ils<'a> {
    cost_mat: &'a Costs,
    palets: &'a Palets,
    #[allow(unused)]
    trucks: Trucks,
}

/// Where an iterated local search stands: the best plan so far, its cost,
/// and the plan the next search starts from.
pub struct IlsState {
    pub best_sol: Trucks,
    pub best_cost: usize,
    pub mutation_sol: Trucks,
}

/// The state is sound for cost matrix `m` and palets `ps`: the best plan is
/// priced right, and both plans hold exactly the palets.
pub open spec fn ils_state_ok(st: IlsState, m: Costs, ps: Seq<u8>) -> bool {
    &&& valid_trucks(st.best_sol)
    &&& valid_trucks(st.mutation_sol)
    &&& st.best_cost == trucks_cost(m, st.best_sol)
    &&& flat(st.best_sol).to_multiset() == ps.to_multiset()
    &&& flat(st.mutation_sol).to_multiset() == ps.to_multiset()
}

impl<'a> Ils<'a> {
    /// The cost matrix.
    pub closed spec fn costs(&self) -> Costs {
        *self.cost_mat
    }

    /// The palets.
    pub closed spec fn palets(&self) -> Seq<u8> {
        self.palets@
    }

    pub fn new(cost_mat: &'a Costs, palets: &'a Palets) -> (s: Self)
        ensures
            s.costs() == *cost_mat,
            s.palets() == palets@,
    {
        Ils { cost_mat, palets, trucks: [[0u8; TRUCK_CAP]; N_TRUCKS] }
    }

    /// The start: a random plan (`gen_sol`), which is also the first plan to
    /// search from.
    pub fn start(&self, rng: &mut RNG) -> (st: IlsState)
        requires
            costs_fit(self.costs()),
            valid_palets(self.palets()),
            self.palets().len() == N_TRUCKS * TRUCK_CAP,
        ensures
            ils_state_ok(st, self.costs(), self.palets()),
            st.mutation_sol == st.best_sol,
            is_dealt(self.palets(), st.best_sol),
            old(rng).draws().is_prefix_of(final(rng).draws()),
            open_drawn(self.palets(), drawn_since(old(rng).draws(), final(rng).draws()), st.best_sol),
    {
        let best_sol = gen_sol(self.palets, rng);
        proof {
            lemma_loaded_full(best_sol, self.palets@);
            lemma_drawn_valid(best_sol, self.palets@);
            lemma_cost_fits(self.costs(), best_sol);
        }
        let best_cost = cost(self.cost_mat, &best_sol);
        IlsState { best_sol, best_cost, mutation_sol: best_sol }
    }

    /// Takes in the plan `next_sol` that a search returned: it becomes the best
    /// plan where it is cheaper, and the next search starts from a mutation of
    /// it; otherwise from a mutation of the best plan.
    pub fn step(&self, st: &mut IlsState, next_sol: Trucks, rng: &mut RNG)
        requires
            costs_fit(self.costs()),
            ils_state_ok(*old(st), self.costs(), self.palets()),
            valid_trucks(next_sol),
            flat(next_sol).to_multiset() == self.palets().to_multiset(),
        ensures
            ils_state_ok(*final(st), self.costs(), self.palets()),
            trucks_cost(self.costs(), next_sol) < old(st).best_cost ==> final(st).best_sol == next_sol
                && mutated(next_sol, final(st).mutation_sol),
            trucks_cost(self.costs(), next_sol) >= old(st).best_cost ==> final(st).best_sol == old(st).best_sol
                && mutated(old(st).best_sol, final(st).mutation_sol),
            old(rng).draws().is_prefix_of(final(rng).draws()),
            mutation_draws(drawn_since(old(rng).draws(), final(rng).draws()), final(st).best_sol, final(st).mutation_sol),
    {
        proof {
            lemma_cost_fits(self.costs(), next_sol);
        }
        let next_cost = cost(self.cost_mat, &next_sol);
        if next_cost < st.best_cost {
            st.best_sol = next_sol;
            st.best_cost = next_cost;
            st.mutation_sol = mutation(&next_sol, rng);
        } else {
            st.mutation_sol = mutation(&st.best_sol, rng);
        }
    }
}

/// Positions at most four apart and different.
pub open spec fn close(a: int, b: int) -> bool {
    a != b && -4 <= a - b <= 4
}

/// `b` is `a` after the two exchanges of a mutation: slot `pa` of truck `ta`
/// with a slot drawn anywhere, then slot `pb` of truck `tb` with a slot drawn
/// anywhere, where `ta`, `tb` are close and `pa`, `pb` are close.
pub open spec fn mutated(a: Trucks, b: Trucks) -> bool {
    exists|mid: Trucks, ta: int, pa: int, tc: int, pc: int, tb: int, pb: int, td: int, pd: int|
        0 <= ta < N_TRUCKS && 0 <= tb < N_TRUCKS && 0 <= tc < N_TRUCKS && 0 <= td < N_TRUCKS && 0 <= pa
            < TRUCK_CAP && 0 <= pb < TRUCK_CAP && 0 <= pc < TRUCK_CAP && 0 <= pd < TRUCK_CAP && close(ta, tb)
            && close(pa, pb) && #[trigger] swapped(a, mid, ta, pa, tc, pc) && #[trigger] swapped(
            mid,
            b,
            tb,
            pb,
            td,
            pd,
        )
}

/// Whether `r` and `avoid` are different and at most four apart.
fn near(r: usize, avoid: usize) -> (b: bool)
    ensures
        b == close(r as int, avoid as int),
{
    let d = if r > avoid {
        r - avoid
    } else {
        avoid - r
    };
    r != avoid && d <= 4
}

/// Draws below `m`, starting from the draw `first`, until the value is close
/// to `avoid`. Should `usize::MAX` draws not suffice, the value next to
/// `avoid` is taken instead.
fn redraw_close(rng: &mut RNG, first: usize, avoid: usize, m: usize) -> (r: usize)
    requires
        2 <= m,
        first < m,
        avoid < m,
    ensures
        r < m,
        close(r as int, avoid as int),
        old(rng).draws().is_prefix_of(final(rng).draws()),
        redrawn(first as int, drawn_since(old(rng).draws(), final(rng).draws()), m, |v: int| !close(v, avoid as int), r as int),
{
    let mut r = first;
    let mut fuel: usize = usize::MAX;
    let ghost d0 = rng.draws();
    while !near(r, avoid) && fuel > 0
        invariant
            r < m,
            2 <= m,
            d0 == old(rng).draws(),
            old(rng).draws().is_prefix_of(rng.draws()),
            drawn_since(d0, rng.draws()).len() == usize::MAX - fuel,
            drawn_since(d0, rng.draws()).len() == 0 ==> r == first,
            drawn_since(d0, rng.draws()).len() > 0 ==> !close(first as int, avoid as int) && r == drawn_below(drawn_since(d0, rng.draws()).last(), m),
            forall|i: int| 0 <= i < drawn_since(d0, rng.draws()).len() - 1 ==> !close(drawn_below(#[trigger] drawn_since(d0, rng.draws())[i], m), avoid as int),
        decreases fuel,
    {
        let ghost before = rng.draws();
        r = rng.next() % m;
        proof {
            assert(rng.draws() =~= before.push(rng.draws().last()));
            let sb = drawn_since(d0, before);
            let sn = drawn_since(d0, rng.draws());
            assert(sn =~= sb.push(rng.draws().last()));
            assert forall|i: int| 0 <= i < sn.len() - 1 implies !close(drawn_below(#[trigger] sn[i], m), avoid as int) by {
                assert(sn[i] == sb[i]);
                if i == sb.len() - 1 {
                    assert(sb[i] == sb.last());
                }
            }
        }
        fuel = fuel - 1;
    }
    proof {
        let sn = drawn_since(d0, rng.draws());
        if sn.len() == 0 {
            assert(rng.draws() =~= d0);
        }
    }
    if !near(r, avoid) {
        r = if avoid + 1 < m {
            avoid + 1
        } else {
            avoid - 1
        };
    }
    r
}

/// The draws `d` of a mutation from `a` to `b`: the first picks truck `ta`,
/// the second a truck `tb` (redrawn until close to `ta`, up to position
/// `k1`); draw `k1` picks slot `pa`, the next a slot `pb` (redrawn until
/// close to `pa`, up to position `k2`); the four last draws pick the truck
/// and the slot exchanged with slot `pa` of `ta` (draws `k2` and `k2 + 2`),
/// then those exchanged with slot `pb` of `tb` (draws `k2 + 1` and `k2 + 3`).
pub open spec fn mutation_draws(d: Seq<u64>, a: Trucks, b: Trucks) -> bool {
    let ta = drawn_below(d[0], N_TRUCKS);
    exists|k1: int, tb: int, k2: int, pb: int, mid: Trucks|
        #![trigger swapped(a, mid, ta, drawn_below(d[k1], TRUCK_CAP), drawn_below(d[k2], N_TRUCKS), drawn_below(d[k2 + 2], TRUCK_CAP)), swapped(mid, b, tb, pb, drawn_below(d[k2 + 1], N_TRUCKS), drawn_below(d[k2 + 3], TRUCK_CAP))]
        2 <= k1 && k1 + 2 <= k2 && d.len() == k2 + 4
            && redrawn(drawn_below(d[1], N_TRUCKS), d.subrange(2, k1), N_TRUCKS, |v: int| !close(v, ta), tb)
            && redrawn(
            drawn_below(d[k1 + 1], TRUCK_CAP),
            d.subrange(k1 + 2, k2),
            TRUCK_CAP,
            |v: int| !close(v, drawn_below(d[k1], TRUCK_CAP)),
            pb,
        ) && swapped(a, mid, ta, drawn_below(d[k1], TRUCK_CAP), drawn_below(d[k2], N_TRUCKS), drawn_below(d[k2 + 2], TRUCK_CAP))
            && swapped(mid, b, tb, pb, drawn_below(d[k2 + 1], N_TRUCKS), drawn_below(d[k2 + 3], TRUCK_CAP))
}

/// Where the second draw of a mutation picks a truck close to the one the
/// first picks, and the fourth a slot close to the one the third picks, the
/// mutation takes eight draws and no more: slot `pa` (third draw) of truck
/// `ta` (first draw) trades palets with the slot that the seventh draw picks
/// in the truck that the fifth picks, then slot `pb` (fourth draw) of truck
/// `tb` (second draw) with the slot that the eighth picks in the truck that
/// the sixth picks. Where that second exchange leaves slot `pa` of `ta` alone,
/// that slot ends with the palet the first exchange brought.
pub proof fn lemma_mutation_exchanges(d: Seq<u64>, a: Trucks, b: Trucks)
    requires
        mutation_draws(d, a, b),
        d.len() >= 8,
        close(drawn_below(d[1], N_TRUCKS), drawn_below(d[0], N_TRUCKS)),
        close(drawn_below(d[3], TRUCK_CAP), drawn_below(d[2], TRUCK_CAP)),
    ensures
        d.len() == 8,
        exists|mid: Trucks|
            #[trigger] swapped(
                a,
                mid,
                drawn_below(d[0], N_TRUCKS),
                drawn_below(d[2], TRUCK_CAP),
                drawn_below(d[4], N_TRUCKS),
                drawn_below(d[6], TRUCK_CAP),
            ) && swapped(
                mid,
                b,
                drawn_below(d[1], N_TRUCKS),
                drawn_below(d[3], TRUCK_CAP),
                drawn_below(d[5], N_TRUCKS),
                drawn_below(d[7], TRUCK_CAP),
            ),
        !(drawn_below(d[5], N_TRUCKS) == drawn_below(d[0], N_TRUCKS) && drawn_below(d[7], TRUCK_CAP) == drawn_below(d[2], TRUCK_CAP))
            && !(drawn_below(d[1], N_TRUCKS) == drawn_below(d[0], N_TRUCKS)) ==> b[drawn_below(d[0], N_TRUCKS)][drawn_below(d[2], TRUCK_CAP)]
            == a[drawn_below(d[4], N_TRUCKS)][drawn_below(d[6], TRUCK_CAP)],
{
    let ta = drawn_below(d[0], N_TRUCKS);
    let (k1, tb, k2, pb, mid) = choose|k1: int, tb: int, k2: int, pb: int, mid: Trucks|
        #![trigger swapped(a, mid, ta, drawn_below(d[k1], TRUCK_CAP), drawn_below(d[k2], N_TRUCKS), drawn_below(d[k2 + 2], TRUCK_CAP)), swapped(mid, b, tb, pb, drawn_below(d[k2 + 1], N_TRUCKS), drawn_below(d[k2 + 3], TRUCK_CAP))]
        2 <= k1 && k1 + 2 <= k2 && d.len() == k2 + 4
            && redrawn(drawn_below(d[1], N_TRUCKS), d.subrange(2, k1), N_TRUCKS, |v: int| !close(v, ta), tb)
            && redrawn(
            drawn_below(d[k1 + 1], TRUCK_CAP),
            d.subrange(k1 + 2, k2),
            TRUCK_CAP,
            |v: int| !close(v, drawn_below(d[k1], TRUCK_CAP)),
            pb,
        ) && swapped(a, mid, ta, drawn_below(d[k1], TRUCK_CAP), drawn_below(d[k2], N_TRUCKS), drawn_below(d[k2 + 2], TRUCK_CAP))
            && swapped(mid, b, tb, pb, drawn_below(d[k2 + 1], N_TRUCKS), drawn_below(d[k2 + 3], TRUCK_CAP));
    assert(d.subrange(2, k1).len() == 0);
    assert(k1 == 2);
    assert(d.subrange(4, k2).len() == 0);
    assert(k2 == 4);
    let pa = drawn_below(d[2], TRUCK_CAP);
    assert(0 <= ta < N_TRUCKS && 0 <= pa < TRUCK_CAP);
    assert(b[ta][pa] == if ta == tb && pa == pb { mid[drawn_below(d[5], N_TRUCKS)][drawn_below(d[7], TRUCK_CAP)] } else if ta == drawn_below(d[5], N_TRUCKS) && pa == drawn_below(d[7], TRUCK_CAP) { mid[tb][pb] } else { mid[ta][pa] });
}

/// A mutation of `t`: two exchanges, as `mutated` states, with the draws
/// that `mutation_draws` states.
fn mutation(t: &Trucks, rng: &mut RNG) -> (r: Trucks)
    requires
        valid_trucks(*t),
    ensures
        mutated(*t, r),
        same_load(*t, r),
        valid_trucks(r),
        old(rng).draws().is_prefix_of(final(rng).draws()),
        mutation_draws(drawn_since(old(rng).draws(), final(rng).draws()), *t, r),
{
    let mut trucks = *t;
    let ghost d0 = rng.draws();
    let truck_a = rng.next() % N_TRUCKS;
    let ghost r0 = rng.draws();
    let truck_b = rng.next() % N_TRUCKS;
    let ghost r1 = rng.draws();
    let truck_b = redraw_close(rng, truck_b, truck_a, N_TRUCKS);
    let ghost r2 = rng.draws();
    let palet_a = rng.next() % TRUCK_CAP;
    let ghost r3 = rng.draws();
    let palet_b = rng.next() % TRUCK_CAP;
    let ghost r4 = rng.draws();
    let palet_b = redraw_close(rng, palet_b, palet_a, TRUCK_CAP);
    let ghost r5 = rng.draws();
    let truck_a_change = rng.next() % N_TRUCKS;
    let ghost r6 = rng.draws();
    let truck_b_change = rng.next() % N_TRUCKS;
    let ghost r7 = rng.draws();
    let truck_a_pal = rng.next() % TRUCK_CAP;
    let ghost r8 = rng.draws();
    let truck_b_pal = rng.next() % TRUCK_CAP;
    let aux = trucks[truck_a][palet_a];
    trucks[truck_a][palet_a] = trucks[truck_a_change][truck_a_pal];
    trucks[truck_a_change][truck_a_pal] = aux;
    let mid = trucks;
    let aux = trucks[truck_b][palet_b];
    trucks[truck_b][palet_b] = trucks[truck_b_change][truck_b_pal];
    trucks[truck_b_change][truck_b_pal] = aux;
    proof {
        assert(swapped(*t, mid, truck_a as int, palet_a as int, truck_a_change as int, truck_a_pal as int));
        assert(swapped(mid, trucks, truck_b as int, palet_b as int, truck_b_change as int, truck_b_pal as int));
        lemma_swap_same_load(*t, mid, truck_a as int, palet_a as int, truck_a_change as int, truck_a_pal as int);
        lemma_swap_same_load(mid, trucks, truck_b as int, palet_b as int, truck_b_change as int, truck_b_pal as int);
        assert(flat(mid).to_multiset().subset_of(flat(*t).to_multiset()));
        lemma_same_load_valid(*t, mid);
        assert(flat(trucks).to_multiset().subset_of(flat(mid).to_multiset()));
        lemma_same_load_valid(mid, trucks);
        assert(close(truck_a as int, truck_b as int));
        assert(close(palet_a as int, palet_b as int));
        let d = drawn_since(d0, rng.draws());
        let k1 = r2.len() - d0.len();
        let k2 = r5.len() - d0.len();
        assert(r0 =~= d0.push(r0.last()));
        assert(r1 =~= r0.push(r1.last()));
        assert(r1.is_prefix_of(r2));
        assert(r3 =~= r2.push(r3.last()));
        assert(r4 =~= r3.push(r4.last()));
        assert(r4.is_prefix_of(r5));
        assert(r6 =~= r5.push(r6.last()));
        assert(r7 =~= r6.push(r7.last()));
        assert(r8 =~= r7.push(r8.last()));
        assert(rng.draws() =~= r8.push(rng.draws().last()));
        assert(d[0] == r0.last() && d[1] == r1.last());
        assert(d.subrange(2, k1) =~= drawn_since(r1, r2));
        assert(d[k1] == r3.last() && d[k1 + 1] == r4.last());
        assert(d.subrange(k1 + 2, k2) =~= drawn_since(r4, r5));
        assert(d[k2] == r6.last() && d[k2 + 1] == r7.last() && d[k2 + 2] == r8.last() && d[k2 + 3] == rng.draws().last());
        assert(d.len() == k2 + 4);
        assert(swapped(*t, mid, drawn_below(d[0], N_TRUCKS), drawn_below(d[k1], TRUCK_CAP), drawn_below(d[k2], N_TRUCKS), drawn_below(d[k2 + 2], TRUCK_CAP)));
        assert(swapped(mid, trucks, truck_b as int, palet_b as int, drawn_below(d[k2 + 1], N_TRUCKS), drawn_below(d[k2 + 3], TRUCK_CAP)));
    }
    trucks
}

} // verus!
