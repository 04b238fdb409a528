//! Search algorithms for the truck loading problem, and what they share: the
//! problem's sizes, the cost of a load plan, and the moves between plans.

use crate::rng::RNG;
use vstd::prelude::*;

pub mod model;

pub mod local_search_bf;
pub use local_search_bf::LocalSearch as LocalSearchBF;

pub mod greedy;
pub use greedy::Greedy;

pub mod genetic;

pub mod tabu_search;
pub use tabu_search::TabuSearch;

pub mod grasp;
pub use grasp::{Grasp, GreedyP, GreedyT};

pub mod random_search;
pub use random_search::RandomSearch;

pub mod ils;
pub use ils::{Ils, IlsState};

pub mod parse;

pub mod memetic;
pub use memetic::Memetic;

pub mod greedy_exp;
pub use greedy_exp::GreedyExp;

pub mod simulated_annealing;
pub use simulated_annealing::{Annealing, SimulatedAnnealing};

use model::{
    cost_upto, costs_fit, costs_ok, deal_step, dealt, flat, is_dealt, lemma_walk_cells, route_cells, walk_cells, key_before, leg, lemma_cost_upto_mono,
    lemma_flat_set, lemma_full_sum, lemma_move_same_load, lemma_sum_update, lemma_sum_zero,
    lemma_walk_nonneg, lemma_zeros_count, loaded_with, max_leg, move_between_trucks, move_in_truck,
    no_loads, plan_matches, route_cost, same_load, set_slot, slot, stable_order_of, sum_upto,
    swapped, trucks_cost, valid_palet, valid_palets, valid_trucks, walk, drawn_below, redrawn, drawn_since, deal_draws, lemma_deal_skips,
};

verus! {

broadcast use {vstd::multiset::group_multiset_properties, vstd::seq_lib::group_to_multiset_ensures};

/// Sizes of the problem instances.
#[derive(Debug)]
pub enum Level {
    Small,
    Medium,
    Large,
}

/// The instance that the constants below describe.
pub const LEVEL: Level = Level::Large;

/// Number of palets.
pub const N_PALETS: usize = 168;

/// Number of cities, the depot (row 0 of the cost matrix) included.
pub const N: usize = 50;

/// Number of trucks.
pub const N_TRUCKS: usize = 12;

/// Number of evaluations a search may spend.
pub const N_EVAL: usize = N * 5_000;

/// Number of palets a truck carries.
pub const TRUCK_CAP: usize = 14;

/// Whether local moves alternate between trucks and within a truck.
pub const CBT: bool = true;

/// The searches that `Ils` can improve its plans with.
#[derive(Debug, Clone, Copy)]
pub enum SearchType {
    LS,
    SA,
    TS,
}

/// A palet, named by the city it is bound for: row `p - 1` of the cost
/// matrix.
pub type Palet = u8;

/// Matrix of costs between cities.
pub type Costs = Vec<Vec<usize>>;

/// The palets to deliver.
pub type Palets = Vec<Palet>;

/// A load plan: the palets of each truck, in the order they are delivered.
pub type Trucks = [[Palet; TRUCK_CAP]; N_TRUCKS];

/// Cost of a load plan: every truck leaves the depot, calls at the city of each
/// of its palets the first time that city comes up, and returns to the depot.
pub fn cost(cost_mat: &Costs, sol: &Trucks) -> (c: usize)
    requires
        costs_ok(*cost_mat),
        valid_trucks(*sol),
        trucks_cost(*cost_mat, *sol) <= usize::MAX,
    ensures
        c == trucks_cost(*cost_mat, *sol),
{
    let mut total: usize = 0;
    let mut t: usize = 0;
    while t < N_TRUCKS
        invariant
            0 <= t <= N_TRUCKS,
            costs_ok(*cost_mat),
            valid_trucks(*sol),
            trucks_cost(*cost_mat, *sol) <= usize::MAX,
            total == cost_upto(*cost_mat, *sol, t as int),
        decreases N_TRUCKS - t,
    {
        proof {
            lemma_cost_upto_mono(*cost_mat, *sol, t as int + 1, N_TRUCKS as int);
            lemma_walk_nonneg(*cost_mat, sol[t as int]@, set![0int], 0);
            lemma_walk_cells(*cost_mat, sol[t as int]@, set![0int], 0);
        }
        let c = route(cost_mat, sol[t].as_slice());
        total = total + c;
        t = t + 1;
    }
    total
}

/// Cost of one truck carrying `stops`, as `route_cost` states it.
pub(crate) fn route(cost_mat: &Costs, stops: &[Palet]) -> (c: usize)
    requires
        route_cells(*cost_mat, stops@),
        forall|j: int| 0 <= j < stops@.len() ==> valid_palet(#[trigger] stops@[j]),
        route_cost(*cost_mat, stops@) <= usize::MAX,
    ensures
        c == route_cost(*cost_mat, stops@),
{
    let mut visited = [false; N];
    let mut actual_city: usize = 0;
    visited[0] = true;
    let ghost mut seen: Set<int> = set![0int];
    let mut acc: usize = 0;
    let mut j: usize = 0;
    proof {
        assert(stops@.skip(0) =~= stops@);
    }
    while j < stops.len()
        invariant
            0 <= j <= stops@.len(),
            walk_cells(*cost_mat, stops@.skip(j as int), seen, actual_city as int),
            forall|k: int| 0 <= k < stops@.len() ==> valid_palet(#[trigger] stops@[k]),
            route_cost(*cost_mat, stops@) <= usize::MAX,
            actual_city < N,
            forall|c: int| 0 <= c < N ==> visited[c] == seen.contains(c),
            acc + walk(*cost_mat, stops@.skip(j as int), seen, actual_city as int) == route_cost(
                *cost_mat,
                stops@,
            ),
        decreases stops@.len() - j,
    {
        let ghost rest = stops@.skip(j as int);
        proof {
            assert(rest[0] == stops@[j as int]);
            assert(rest.drop_first() =~= stops@.skip(j as int + 1));
        }
        let x = (stops[j] - 1) as usize;
        if !visited[x] {
            proof {
                lemma_walk_nonneg(*cost_mat, rest.drop_first(), seen.insert(x as int), x as int);
            }
            let c = cost_mat[actual_city][x];
            visited[x] = true;
            actual_city = x;
            acc = acc + c;
            proof {
                seen = seen.insert(x as int);
            }
        }
        j = j + 1;
    }
    proof {
        lemma_walk_nonneg(*cost_mat, stops@.skip(j as int), seen, actual_city as int);
    }
    acc + cost_mat[actual_city][0]
}

/// Draws below `m` from the `SmallRng`, starting from the draw `first`, until
/// the value differs from `avoid`. Should `usize::MAX` draws in a row all give
/// `avoid`, the value after `avoid` (or 0) is taken instead.
pub(crate) fn redraw_other(rng: &mut RNG, first: usize, avoid: usize, m: usize) -> (r: usize)
    requires
        2 <= m,
        first < m,
    ensures
        r < m,
        r != avoid,
        old(rng).draws().is_prefix_of(final(rng).draws()),
        first != avoid ==> r == first && final(rng).draws() == old(rng).draws(),
        redrawn(first as int, drawn_since(old(rng).draws(), final(rng).draws()), m, |v: int| v == avoid, r as int),
{
    let mut r = first;
    let mut fuel: usize = usize::MAX;
    let ghost d0 = rng.draws();
    while r == avoid && fuel > 0
        invariant
            r < m,
            2 <= m,
            d0 == old(rng).draws(),
            old(rng).draws().is_prefix_of(rng.draws()),
            first != avoid ==> r == first && rng.draws() == old(rng).draws(),
            drawn_since(d0, rng.draws()).len() == usize::MAX - fuel,
            drawn_since(d0, rng.draws()).len() == 0 ==> r == first,
            drawn_since(d0, rng.draws()).len() > 0 ==> first == avoid && r == drawn_below(drawn_since(d0, rng.draws()).last(), m),
            forall|i: int| 0 <= i < drawn_since(d0, rng.draws()).len() - 1 ==> drawn_below(#[trigger] drawn_since(d0, rng.draws())[i], m) == avoid,
        decreases fuel,
    {
        let ghost before = rng.draws();
        r = rng.next() % m;
        proof {
            assert(rng.draws() =~= before.push(rng.draws().last()));
            let sb = drawn_since(d0, before);
            let sn = drawn_since(d0, rng.draws());
            assert(sn =~= sb.push(rng.draws().last()));
            assert forall|i: int| 0 <= i < sn.len() - 1 implies drawn_below(#[trigger] sn[i], m) == avoid by {
                assert(sn[i] == sb[i]);
                if i == sb.len() - 1 {
                    assert(sb[i] == sb.last());
                }
            }
        }
        fuel = fuel - 1;
    }
    proof {
        let sn = drawn_since(d0, rng.draws());
        if sn.len() == 0 {
            assert(rng.draws() =~= d0);
        }
    }
    if r == avoid {
        r = if avoid + 1 < m {
            avoid + 1
        } else {
            0
        };
    }
    r
}

/// The plan `sol` with two slots exchanged: slot `a` of truck `truck` and slot
/// `b` of truck `truck_b`, or of `truck` itself when `change_palets` is false.
pub fn gen_neighbour_2(
    sol: &Trucks,
    change_palets: bool,
    truck: usize,
    truck_b: usize,
    a: usize,
    b: usize,
) -> (nb: Trucks)
    requires
        truck < N_TRUCKS,
        a < TRUCK_CAP,
        b < TRUCK_CAP,
        change_palets ==> truck_b < N_TRUCKS,
    ensures
        swapped(
            *sol,
            nb,
            truck as int,
            a as int,
            if change_palets {
                truck_b as int
            } else {
                truck as int
            },
            b as int,
        ),
{
    let mut nb = *sol;
    if change_palets {
        let aux = nb[truck][a];
        nb[truck][a] = nb[truck_b][b];
        nb[truck_b][b] = aux;
    } else {
        let aux = nb[truck][a];
        nb[truck][a] = nb[truck][b];
        nb[truck][b] = aux;
    }
    nb
}

/// The draws `d` of an exchange within a truck, from `a` to `b`: the first
/// picks a slot, the second another slot (redrawn while it is the first), the
/// third the truck; `b` is `a` with those two slots of that truck exchanged.
pub open spec fn in_truck_draws(d: Seq<u64>, a: Trucks, b: Trucks) -> bool {
    let from = drawn_below(d[0], TRUCK_CAP);
    let t = drawn_below(d[2], N_TRUCKS);
    &&& d.len() >= 3
    &&& exists|to: int|
        redrawn(drawn_below(d[1], TRUCK_CAP), d.skip(3), TRUCK_CAP, |v: int| v == from, to) && #[trigger] swapped(
            a,
            b,
            t,
            to,
            t,
            from,
        )
}

/// The draws `d` of an exchange between trucks, from `a` to `b`: the first
/// picks a truck, the second another truck (redrawn while it is the first,
/// up to position `k`), then draw `k` picks a slot and draw `k + 1` another
/// slot (redrawn while it is that one); `b` is `a` with the slot of the first
/// truck exchanged with the other slot of the other truck.
pub open spec fn between_draws(d: Seq<u64>, a: Trucks, b: Trucks) -> bool {
    let ft = drawn_below(d[0], N_TRUCKS);
    exists|k: int, tt: int, to: int|
        2 <= k && k + 2 <= d.len() && redrawn(drawn_below(d[1], N_TRUCKS), d.subrange(2, k), N_TRUCKS, |v: int| v == ft, tt)
            && redrawn(
            drawn_below(d[k + 1], TRUCK_CAP),
            d.skip(k + 2),
            TRUCK_CAP,
            |v: int| v == drawn_below(d[k], TRUCK_CAP),
            to,
        ) && #[trigger] swapped(a, b, tt, to, ft, drawn_below(d[k], TRUCK_CAP))
}

/// Exchanges two different slots of one truck, all three drawn at random.
pub fn two_op_in_truck(sol: &mut Trucks, rng: &mut RNG)
    ensures
        move_in_truck(*old(sol), *final(sol)),
        old(rng).draws().is_prefix_of(final(rng).draws()),
        in_truck_draws(drawn_since(old(rng).draws(), final(rng).draws()), *old(sol), *final(sol)),
{
    let ghost d0 = rng.draws();
    let from = rng.next() % TRUCK_CAP;
    let ghost r0 = rng.draws();
    let to = rng.next() % TRUCK_CAP;
    let ghost r1 = rng.draws();
    let truck = rng.next() % N_TRUCKS;
    let ghost r2 = rng.draws();
    let to = redraw_other(rng, to, from, TRUCK_CAP);
    let aux = sol[truck][to];
    sol[truck][to] = sol[truck][from];
    sol[truck][from] = aux;
    assert(swapped(*old(sol), *sol, truck as int, to as int, truck as int, from as int));
    proof {
        let d = drawn_since(d0, rng.draws());
        assert(r0 =~= d0.push(r0.last()));
        assert(r1 =~= r0.push(r1.last()));
        assert(r2 =~= r1.push(r2.last()));
        assert(r2 =~= d0 + seq![r0.last(), r1.last(), r2.last()]);
        assert(r2.is_prefix_of(rng.draws()));
        assert(d[0] == r0.last() && d[1] == r1.last() && d[2] == r2.last());
        assert(d.skip(3) =~= drawn_since(r2, rng.draws()));
        assert(swapped(*old(sol), *sol, drawn_below(d[2], N_TRUCKS), to as int, drawn_below(d[2], N_TRUCKS), drawn_below(d[0], TRUCK_CAP)));
    }
}

/// Exchanges a slot of one truck with a slot at another position of another
/// truck, all drawn at random.
pub fn two_op_between_trucks(new_sol: &mut Trucks, rng: &mut RNG)
    ensures
        move_between_trucks(*old(new_sol), *final(new_sol)),
        old(rng).draws().is_prefix_of(final(rng).draws()),
        between_draws(drawn_since(old(rng).draws(), final(rng).draws()), *old(new_sol), *final(new_sol)),
{
    let ghost d0 = rng.draws();
    let from_truck = rng.next() % N_TRUCKS;
    let ghost r0 = rng.draws();
    let to_truck = rng.next() % N_TRUCKS;
    let ghost r1 = rng.draws();
    let to_truck = redraw_other(rng, to_truck, from_truck, N_TRUCKS);
    let ghost r2 = rng.draws();
    let from = rng.next() % TRUCK_CAP;
    let ghost r3 = rng.draws();
    let to = rng.next() % TRUCK_CAP;
    let ghost r4 = rng.draws();
    let to = redraw_other(rng, to, from, TRUCK_CAP);
    let aux = new_sol[to_truck][to];
    new_sol[to_truck][to] = new_sol[from_truck][from];
    new_sol[from_truck][from] = aux;
    assert(swapped(
        *old(new_sol),
        *new_sol,
        to_truck as int,
        to as int,
        from_truck as int,
        from as int,
    ));
    proof {
        let d = drawn_since(d0, rng.draws());
        let k = r2.len() - d0.len();
        assert(r0 =~= d0.push(r0.last()));
        assert(r1 =~= r0.push(r1.last()));
        assert(r1.is_prefix_of(r2));
        assert(r3 =~= r2.push(r3.last()));
        assert(r4 =~= r3.push(r4.last()));
        assert(r4.is_prefix_of(rng.draws()));
        assert(d[0] == r0.last() && d[1] == r1.last());
        assert(d.subrange(2, k) =~= drawn_since(r1, r2));
        assert(d[k] == r3.last() && d[k + 1] == r4.last());
        assert(d.skip(k + 2) =~= drawn_since(r4, rng.draws()));
        assert(swapped(*old(new_sol), *new_sol, to_truck as int, to as int, drawn_below(d[0], N_TRUCKS), drawn_below(d[k], TRUCK_CAP)));
    }
}

/// Where the first two draws of an exchange between trucks pick different
/// trucks and the next two pick different slots, the exchange takes those
/// four draws and no more: the slot that the third picks in the truck that
/// the first picks, and the slot that the fourth picks in the truck that the
/// second picks, trade palets, and every other slot keeps its palet.
pub proof fn lemma_between_draws_exchange(d: Seq<u64>, a: Trucks, b: Trucks)
    requires
        between_draws(d, a, b),
        d.len() >= 4,
        drawn_below(d[0], N_TRUCKS) != drawn_below(d[1], N_TRUCKS),
        drawn_below(d[2], TRUCK_CAP) != drawn_below(d[3], TRUCK_CAP),
    ensures
        d.len() == 4,
        b[drawn_below(d[0], N_TRUCKS)][drawn_below(d[2], TRUCK_CAP)] == a[drawn_below(d[1], N_TRUCKS)][drawn_below(d[3], TRUCK_CAP)],
        b[drawn_below(d[1], N_TRUCKS)][drawn_below(d[3], TRUCK_CAP)] == a[drawn_below(d[0], N_TRUCKS)][drawn_below(d[2], TRUCK_CAP)],
        forall|i: int, j: int|
            0 <= i < N_TRUCKS && 0 <= j < TRUCK_CAP && !(i == drawn_below(d[0], N_TRUCKS) && j == drawn_below(d[2], TRUCK_CAP))
                && !(i == drawn_below(d[1], N_TRUCKS) && j == drawn_below(d[3], TRUCK_CAP)) ==> #[trigger] b[i][j] == a[i][j],
{
    let ft = drawn_below(d[0], N_TRUCKS);
    let (k, tt, to) = choose|k: int, tt: int, to: int|
        2 <= k && k + 2 <= d.len() && redrawn(drawn_below(d[1], N_TRUCKS), d.subrange(2, k), N_TRUCKS, |v: int| v == ft, tt)
            && redrawn(
            drawn_below(d[k + 1], TRUCK_CAP),
            d.skip(k + 2),
            TRUCK_CAP,
            |v: int| v == drawn_below(d[k], TRUCK_CAP),
            to,
        ) && #[trigger] swapped(a, b, tt, to, ft, drawn_below(d[k], TRUCK_CAP));
    assert(d.subrange(2, k).len() == 0);
    assert(k == 2);
    assert(d.skip(4).len() == 0);
    let s0 = drawn_below(d[2], TRUCK_CAP);
    let s1 = drawn_below(d[3], TRUCK_CAP);
    assert(0 <= ft < N_TRUCKS && 0 <= s0 < TRUCK_CAP);
    assert(b[ft][s0] == a[tt][to]);
}

/// Where the first two draws of an exchange within a truck pick different
/// slots, the exchange takes three draws and no more: those two slots of the
/// truck that the third draw picks trade palets, and every other slot keeps
/// its palet.
pub proof fn lemma_in_truck_draws_exchange(d: Seq<u64>, a: Trucks, b: Trucks)
    requires
        in_truck_draws(d, a, b),
        drawn_below(d[0], TRUCK_CAP) != drawn_below(d[1], TRUCK_CAP),
    ensures
        d.len() == 3,
        b[drawn_below(d[2], N_TRUCKS)][drawn_below(d[0], TRUCK_CAP)] == a[drawn_below(d[2], N_TRUCKS)][drawn_below(d[1], TRUCK_CAP)],
        b[drawn_below(d[2], N_TRUCKS)][drawn_below(d[1], TRUCK_CAP)] == a[drawn_below(d[2], N_TRUCKS)][drawn_below(d[0], TRUCK_CAP)],
        forall|i: int, j: int|
            0 <= i < N_TRUCKS && 0 <= j < TRUCK_CAP && !(i == drawn_below(d[2], N_TRUCKS) && (j == drawn_below(d[0], TRUCK_CAP)
                || j == drawn_below(d[1], TRUCK_CAP))) ==> #[trigger] b[i][j] == a[i][j],
{
    let from = drawn_below(d[0], TRUCK_CAP);
    let t = drawn_below(d[2], N_TRUCKS);
    let to = choose|to: int|
        redrawn(drawn_below(d[1], TRUCK_CAP), d.skip(3), TRUCK_CAP, |v: int| v == from, to) && #[trigger] swapped(a, b, t, to, t, from);
    assert(d.skip(3).len() == 0);
    assert(0 <= t < N_TRUCKS && 0 <= from < TRUCK_CAP);
}

/// A neighbour move takes at least three draws.
pub proof fn lemma_neighbour_takes_draws(between: bool, d: Seq<u64>, a: Trucks, b: Trucks)
    requires
        neighbour_draws(between, d, a, b),
    ensures
        d.len() >= 3,
{
}

/// The draws `d` of a neighbour move from `a` to `b`: an exchange between
/// trucks where `between` holds, within a truck otherwise.
pub open spec fn neighbour_draws(between: bool, d: Seq<u64>, a: Trucks, b: Trucks) -> bool {
    if between {
        between_draws(d, a, b)
    } else {
        in_truck_draws(d, a, b)
    }
}

/// A neighbour of `sol`: a random exchange between two trucks when
/// `change_palets` holds, within one truck otherwise.
pub fn gen_neighbour(sol: &Trucks, change_palets: bool, rng: &mut RNG) -> (nb: Trucks)
    ensures
        change_palets ==> move_between_trucks(*sol, nb),
        !change_palets ==> move_in_truck(*sol, nb),
        same_load(*sol, nb),
        valid_trucks(*sol) ==> valid_trucks(nb),
        old(rng).draws().is_prefix_of(final(rng).draws()),
        neighbour_draws(change_palets, drawn_since(old(rng).draws(), final(rng).draws()), *sol, nb),
{
    let mut nb = *sol;
    if change_palets {
        two_op_between_trucks(&mut nb, rng);
    } else {
        two_op_in_truck(&mut nb, rng);
    }
    proof {
        lemma_move_same_load(*sol, nb);
    }
    nb
}


/// Draws a truck at random, starting from the draw `first`, until it has room.
/// Should `usize::MAX` draws in a row all give full trucks, the first truck
/// with room is taken instead.
fn draw_open_truck(rng: &mut RNG, first: usize, lens: &[usize; N_TRUCKS]) -> (t: usize)
    requires
        first < N_TRUCKS,
        exists|i: int| 0 <= i < N_TRUCKS && #[trigger] lens[i] < TRUCK_CAP,
    ensures
        t < N_TRUCKS,
        lens[t as int] < TRUCK_CAP,
        final(rng).home() == old(rng).home(),
        old(rng).draws().is_prefix_of(final(rng).draws()),
        redrawn(first as int, drawn_since(old(rng).draws(), final(rng).draws()), N_TRUCKS, |v: int| lens[v] >= TRUCK_CAP, t as int),
{
    let mut to_truck = first;
    let mut fuel: usize = usize::MAX;
    let ghost d0 = rng.draws();
    while lens[to_truck] >= TRUCK_CAP && fuel > 0
        invariant
            to_truck < N_TRUCKS,
            rng.home() == old(rng).home(),
            d0 == old(rng).draws(),
            old(rng).draws().is_prefix_of(rng.draws()),
            drawn_since(d0, rng.draws()).len() == usize::MAX - fuel,
            drawn_since(d0, rng.draws()).len() == 0 ==> to_truck == first,
            drawn_since(d0, rng.draws()).len() > 0 ==> lens[first as int] >= TRUCK_CAP && to_truck == drawn_below(drawn_since(d0, rng.draws()).last(), N_TRUCKS),
            forall|i: int| 0 <= i < drawn_since(d0, rng.draws()).len() - 1 ==> lens[drawn_below(#[trigger] drawn_since(d0, rng.draws())[i], N_TRUCKS)] >= TRUCK_CAP,
        decreases fuel,
    {
        let ghost before = rng.draws();
        to_truck = rng.next() % N_TRUCKS;
        proof {
            assert(rng.draws() =~= before.push(rng.draws().last()));
            let sb = drawn_since(d0, before);
            let sn = drawn_since(d0, rng.draws());
            assert(sn =~= sb.push(rng.draws().last()));
            assert forall|i: int| 0 <= i < sn.len() - 1 implies lens[drawn_below(#[trigger] sn[i], N_TRUCKS)] >= TRUCK_CAP by {
                assert(sn[i] == sb[i]);
                if i == sb.len() - 1 {
                    assert(sb[i] == sb.last());
                }
            }
        }
        fuel = fuel - 1;
    }
    proof {
        let sn = drawn_since(d0, rng.draws());
        if sn.len() == 0 {
            assert(rng.draws() =~= d0);
        }
    }
    if lens[to_truck] >= TRUCK_CAP {
        let mut i: usize = 0;
        while lens[i] >= TRUCK_CAP
            invariant
                0 <= i < N_TRUCKS,
                exists|j: int| i <= j < N_TRUCKS && #[trigger] lens[j] < TRUCK_CAP,
            decreases N_TRUCKS - i,
        {
            i = i + 1;
        }
        to_truck = i;
    }
    to_truck
}

/// A random plan: each palet, in turn, goes to the next free slot of a truck
/// drawn at random among those with room.
pub fn gen_sol(palets: &Palets, rng: &mut RNG) -> (sol: Trucks)
    requires
        palets.len() <= N_TRUCKS * TRUCK_CAP,
    ensures
        loaded_with(sol, palets@),
        is_dealt(palets@, sol),
        final(rng).home() == old(rng).home(),
        old(rng).draws().is_prefix_of(final(rng).draws()),
        open_drawn(palets@, drawn_since(old(rng).draws(), final(rng).draws()), sol),
{
    let mut new_sol: Trucks = [[0u8; TRUCK_CAP]; N_TRUCKS];
    let mut lens: [usize; N_TRUCKS] = [0usize; N_TRUCKS];
    let mut k: usize = 0;
    let ghost d0 = rng.draws();
    let ghost mut fell = false;
    let ghost mut choice: Seq<int> = Seq::empty();
    let ghost mut loads: Seq<Seq<Seq<u8>>> = seq![no_loads()];
    proof {
        assert(plan_matches(new_sol, no_loads()));
        assert(flat(new_sol) =~= Seq::new((N_TRUCKS * TRUCK_CAP) as nat, |i: int| 0u8));
        assert(palets@.take(0) =~= Seq::<u8>::empty());
        assert forall|v: u8| #[trigger] flat(new_sol).to_multiset().count(v) == palets@.take(
            0,
        ).to_multiset().count(v) + if v == 0 {
            (N_TRUCKS * TRUCK_CAP) as int - 0
        } else {
            0
        } by {
            lemma_zeros_count(v);
        }
        assert(sum_upto(lens@, N_TRUCKS as int) == 0) by {
            lemma_sum_zero(lens@, N_TRUCKS as int);
        }
    }
    while k < palets.len()
        invariant
            k <= palets.len() <= N_TRUCKS * TRUCK_CAP,
            forall|t: int| 0 <= t < N_TRUCKS ==> #[trigger] lens[t] <= TRUCK_CAP,
            sum_upto(lens@, N_TRUCKS as int) == k,
            forall|t: int, j: int|
                0 <= t < N_TRUCKS && lens[t] <= j < TRUCK_CAP ==> #[trigger] new_sol[t][j] == 0,
            loaded_with(new_sol, palets@.take(k as int)),
            choice.len() == k,
            loads.len() == k + 1,
            loads[0] == no_loads(),
            forall|q: int| 0 <= q < k ==> #[trigger] deal_step(palets@, choice, loads, q),
            plan_matches(new_sol, loads[k as int]),
            forall|t: int| 0 <= t < N_TRUCKS ==> #[trigger] lens[t] == loads[k as int][t].len(),
            rng.home() == old(rng).home(),
            d0 == old(rng).draws(),
            d0.is_prefix_of(rng.draws()),
            !fell ==> deal_draws(palets@, drawn_since(d0, rng.draws())).0 == loads[k as int],
            !fell ==> deal_draws(palets@, drawn_since(d0, rng.draws())).1 == k,
            !fell && k == 0 ==> drawn_since(d0, rng.draws()).len() == 0,
            !fell && k > 0 ==> drawn_since(d0, rng.draws()).len() > 0 && deal_draws(
                palets@,
                drawn_since(d0, rng.draws()).drop_last(),
            ).1 == k - 1,
            fell ==> drawn_since(d0, rng.draws()).len() >= usize::MAX,
        decreases palets.len() - k,
    {
        let pal = palets[k];
        let ghost dprev = rng.draws();
        let first = rng.next() % N_TRUCKS;
        let ghost dmid = rng.draws();
        proof {
            if forall|i: int| 0 <= i < N_TRUCKS ==> !(#[trigger] lens[i] < TRUCK_CAP) {
                lemma_full_sum(lens@, N_TRUCKS as int);
            }
        }
        let to_truck = draw_open_truck(rng, first, &lens);
        proof {
            let pre = drawn_since(d0, dprev);
            let x0 = dmid.last();
            let seg = drawn_since(dmid, rng.draws());
            let dn = drawn_since(d0, rng.draws());
            assert(dmid =~= dprev.push(x0));
            assert(dn =~= pre.push(x0) + seg);
            if seg.len() >= usize::MAX {
                fell = true;
            } else if !fell {
                let all = seq![x0] + seg;
                assert(dn =~= pre + all);
                assert(all.last() == if seg.len() == 0 { x0 } else { seg.last() });
                assert(drawn_below(all.last(), N_TRUCKS) == to_truck);
                assert forall|i: int| 0 <= i < all.drop_last().len() implies deal_draws(palets@, pre).0[drawn_below(#[trigger] all.drop_last()[i], N_TRUCKS)].len() >= TRUCK_CAP by {
                    if i == 0 {
                        assert(all.drop_last()[i] == x0);
                    } else {
                        assert(all.drop_last()[i] == seg[i - 1]);
                    }
                }
                lemma_deal_skips(palets@, pre, all.drop_last());
                assert(dn.drop_last() =~= pre + all.drop_last());
            }
        }
        let last = lens[to_truck];
        let ghost old_sol = new_sol;
        let ghost old_lens = lens@;
        let ghost old_choice = choice;
        let ghost old_loads = loads;
        let ghost cur = loads[k as int];
        new_sol[to_truck][last] = pal;
        lens[to_truck] = last + 1;
        k = k + 1;
        proof {
            assert(set_slot(old_sol, new_sol, to_truck as int, last as int, pal));
            lemma_flat_set(old_sol, new_sol, to_truck as int, last as int, pal);
            lemma_sum_update(old_lens, N_TRUCKS as int, to_truck as int, (last + 1) as usize);
            assert(lens@ =~= old_lens.update(to_truck as int, (last + 1) as usize));
            let fo = flat(old_sol);
            let sl = slot(to_truck as int, last as int);
            assert(fo[sl] == 0);
            vstd::seq_lib::to_multiset_update(fo, sl, pal);
            assert(palets@.take(k as int) =~= palets@.take(k - 1).push(pal));
            vstd::seq_lib::to_multiset_build(palets@.take(k - 1), pal);
            assert(fo.to_multiset().count(0) > 0);
            let next = cur.update(to_truck as int, cur[to_truck as int].push(pal));
            choice = choice.push(to_truck as int);
            loads = loads.push(next);
            assert(deal_step(palets@, choice, loads, k - 1));
            assert(plan_matches(new_sol, next)) by {
                assert forall|t: int, j: int| 0 <= t < N_TRUCKS && 0 <= j < TRUCK_CAP implies #[trigger] new_sol[t][j] == if j < next[t].len() {
                    next[t][j]
                } else {
                    0
                } by {
                    if t == to_truck {
                        assert(old_sol[t][j] == if j < cur[t].len() { cur[t][j] } else { 0 });
                    } else {
                        assert(new_sol[t][j] == old_sol[t][j]);
                    }
                }
            }
            assert forall|q: int| 0 <= q < k implies #[trigger] deal_step(palets@, choice, loads, q) by {
                if q < k - 1 {
                    assert(deal_step(palets@, old_choice, old_loads, q));
                    assert(loads[q] == old_loads[q]);
                    assert(loads[q + 1] == old_loads[q + 1]);
                    assert(choice[q] == old_choice[q]);
                }
            }
        }
    }
    proof {
        assert(palets@.take(k as int) =~= palets@);
        assert(dealt(palets@, new_sol, choice, loads));
    }
    new_sol
}

/// The draws `d` of `gen_sol` for the plan `sol`, dealing `ps`: one draw per
/// palet, and more while the truck drawn has no room (`deal_draws`); they
/// deal every palet, the last draw the last palet, and `sol` holds the loads
/// they make. (Only where `usize::MAX` draws in a row find no room does the
/// dealing give up, and the plan is then not stated here.)
pub open spec fn open_drawn(ps: Seq<u8>, d: Seq<u64>, sol: Trucks) -> bool {
    ||| d.len() >= usize::MAX
    ||| {
        &&& deal_draws(ps, d).1 == ps.len()
        &&& plan_matches(sol, deal_draws(ps, d).0)
        &&& d.len() == 0 ==> ps.len() == 0
        &&& d.len() > 0 ==> deal_draws(ps, d.drop_last()).1 < ps.len()
    }
}

/// One step of `gen_sol2` with the draw `d`: the palet `pal` is the one at
/// the position of the list `left` that `d` picks, and `next` is `left`
/// without it.
pub open spec fn pick_step(left: Seq<u8>, pal: u8, next: Seq<u8>, d: u64) -> bool {
    let x = ((d as usize) % (left.len() as usize)) as int;
    &&& 0 < left.len()
    &&& left[x] == pal
    &&& next == left.remove(x)
}

/// The draws `d` of `gen_sol2` for the plan `sol`: one per slot, in order,
/// each taking its palet out of what is left of `ps` (`pick_step`).
pub open spec fn picked(ps: Seq<u8>, d: Seq<u64>, sol: Trucks) -> bool {
    exists|lefts: Seq<Seq<u8>>|
        #[trigger] lefts.len() == N_TRUCKS * TRUCK_CAP + 1 && d.len() == N_TRUCKS * TRUCK_CAP && lefts[0] == ps && forall|q: int|
            0 <= q < N_TRUCKS * TRUCK_CAP ==> #[trigger] pick_step(lefts[q], flat(sol)[q], lefts[q + 1], d[q])
}

/// A random plan: slot after slot, truck after truck, each slot takes a palet
/// drawn at random among those not yet placed. Palets beyond the plan's
/// capacity are left out.
pub fn gen_sol2(palets: &Palets, rng: &mut RNG) -> (sol: Trucks)
    requires
        palets.len() >= N_TRUCKS * TRUCK_CAP,
    ensures
        flat(sol).to_multiset().subset_of(palets@.to_multiset()),
        palets.len() == N_TRUCKS * TRUCK_CAP ==> loaded_with(sol, palets@),
        old(rng).draws().is_prefix_of(final(rng).draws()),
        picked(palets@, drawn_since(old(rng).draws(), final(rng).draws()), sol),
{
    let mut new_sol: Trucks = [[0u8; TRUCK_CAP]; N_TRUCKS];
    let mut pals = palets.clone();
    let ghost d0 = rng.draws();
    let ghost mut lefts: Seq<Seq<u8>> = seq![palets@];
    proof {
        assert(pals@ =~= palets@);
        assert(flat(new_sol).take(0) =~= Seq::<u8>::empty());
        assert(flat(new_sol).take(0).to_multiset() =~= vstd::multiset::Multiset::empty());
        assert(flat(new_sol).take(0).to_multiset().add(pals@.to_multiset()) =~= palets@.to_multiset());
    }
    let mut ti: usize = 0;
    while ti < N_TRUCKS
        invariant
            ti <= N_TRUCKS,
            palets.len() >= N_TRUCKS * TRUCK_CAP,
            pals.len() == palets.len() - ti * TRUCK_CAP,
            flat(new_sol).take(ti * TRUCK_CAP).to_multiset().add(pals@.to_multiset())
                == palets@.to_multiset(),
            d0 == old(rng).draws(),
            d0.is_prefix_of(rng.draws()),
            drawn_since(d0, rng.draws()).len() == ti * TRUCK_CAP,
            lefts.len() == ti * TRUCK_CAP + 1,
            lefts[0] == palets@,
            lefts[ti * TRUCK_CAP] == pals@,
            forall|q: int| 0 <= q < ti * TRUCK_CAP ==> #[trigger] pick_step(lefts[q], flat(new_sol)[q], lefts[q + 1], drawn_since(d0, rng.draws())[q]),
        decreases N_TRUCKS - ti,
    {
        let mut last: usize = 0;
        while last < TRUCK_CAP
            invariant
                ti < N_TRUCKS,
                last <= TRUCK_CAP,
                palets.len() >= N_TRUCKS * TRUCK_CAP,
                pals.len() == palets.len() - (ti * TRUCK_CAP + last),
                flat(new_sol).take(ti * TRUCK_CAP + last).to_multiset().add(pals@.to_multiset())
                    == palets@.to_multiset(),
                d0 == old(rng).draws(),
                d0.is_prefix_of(rng.draws()),
                drawn_since(d0, rng.draws()).len() == ti * TRUCK_CAP + last,
                lefts.len() == ti * TRUCK_CAP + last + 1,
                lefts[0] == palets@,
                lefts[ti * TRUCK_CAP + last] == pals@,
                forall|q: int| 0 <= q < ti * TRUCK_CAP + last ==> #[trigger] pick_step(lefts[q], flat(new_sol)[q], lefts[q + 1], drawn_since(d0, rng.draws())[q]),
            decreases TRUCK_CAP - last,
        {
            proof {
                assert(ti * TRUCK_CAP + last < N_TRUCKS * TRUCK_CAP) by (nonlinear_arith)
                    requires
                        ti < N_TRUCKS,
                        last < TRUCK_CAP,
                ;
            }
            let ghost dprev = rng.draws();
            let ghost fprev = flat(new_sol);
            let ghost old_lefts = lefts;
            let index = rng.next() % pals.len();
            let ghost dnow = rng.draws();
            let ghost old_pals = pals@;
            let x = pals.remove(index);
            let ghost old_sol = new_sol;
            new_sol[ti][last] = x;
            proof {
                let k = ti * TRUCK_CAP + last;
                assert(set_slot(old_sol, new_sol, ti as int, last as int, x));
                lemma_flat_set(old_sol, new_sol, ti as int, last as int, x);
                assert(slot(ti as int, last as int) == k);
                assert(flat(new_sol).take(k + 1) =~= flat(old_sol).take(k as int).push(x));
                vstd::seq_lib::to_multiset_build(flat(old_sol).take(k as int), x);
                vstd::seq_lib::to_multiset_remove(old_pals, index as int);
                assert(old_pals.remove(index as int) =~= pals@);
                assert(old_pals[index as int] == x);
                assert(old_pals.to_multiset().count(x) > 0);
                let a = flat(old_sol).take(k as int).to_multiset();
                assert forall|v: u8| #[trigger] flat(new_sol).take(k + 1).to_multiset().add(
                    pals@.to_multiset(),
                ).count(v) == a.add(old_pals.to_multiset()).count(v) by {}
                assert(flat(new_sol).take(k + 1).to_multiset().add(pals@.to_multiset())
                    =~= palets@.to_multiset());
            }
            proof {
                let k = ti * TRUCK_CAP + last;
                assert(dnow =~= dprev.push(dnow.last()));
                lefts = lefts.push(pals@);
                let dn = drawn_since(d0, dnow);
                let dp = drawn_since(d0, dprev);
                assert(dn[k] == dnow.last());
                assert(flat(new_sol) =~= fprev.update(k, x));
                assert(pick_step(lefts[k], flat(new_sol)[k], lefts[k + 1], dn[k]));
                assert forall|q: int| 0 <= q < k + 1 implies #[trigger] pick_step(lefts[q], flat(new_sol)[q], lefts[q + 1], dn[q]) by {
                    if q < k {
                        assert(lefts[q] == old_lefts[q] && lefts[q + 1] == old_lefts[q + 1]);
                        assert(flat(new_sol)[q] == fprev[q]);
                        assert(dn[q] == dp[q]);
                    }
                }
            }
            last = last + 1;
        }
        ti = ti + 1;
    }
    proof {
        assert(flat(new_sol).take(N_TRUCKS * TRUCK_CAP) =~= flat(new_sol));
        assert(picked(palets@, drawn_since(d0, rng.draws()), new_sol));
        if palets.len() == N_TRUCKS * TRUCK_CAP {
            assert(pals@ =~= Seq::<u8>::empty());
            assert(pals@.to_multiset() =~= vstd::multiset::Multiset::empty());
        }
    }
    new_sol
}


/// How many palets are bound for each city: entry `c` counts city `c + 1`.
pub fn count_palets(palets: &Palets) -> (pals: [usize; N])
    requires
        valid_palets(palets@),
    ensures
        forall|c: int| 0 <= c < N ==> #[trigger] pals[c] == palets@.to_multiset().count((c + 1) as u8),
        sum_upto(pals@, N as int) == palets@.len(),
{
    let mut pals = [0usize; N];
    let mut k: usize = 0;
    proof {
        lemma_sum_zero(pals@, N as int);
    }
    while k < palets.len()
        invariant
            k <= palets@.len(),
            valid_palets(palets@),
            forall|c: int| 0 <= c < N ==> #[trigger] pals[c] == palets@.take(k as int).to_multiset().count((c + 1) as u8),
            forall|c: int| 0 <= c < N ==> #[trigger] pals[c] <= k,
            sum_upto(pals@, N as int) == k,
        decreases palets@.len() - k,
    {
        let pal = palets[k];
        assert(valid_palet(palets@[k as int]));
        let ghost before = pals;
        pals[(pal - 1) as usize] = pals[(pal - 1) as usize] + 1;
        proof {
            assert(palets@.take(k + 1) =~= palets@.take(k as int).push(pal));
            assert forall|c: int| 0 <= c < N implies #[trigger] pals[c] == palets@.take(k + 1).to_multiset().count((c + 1) as u8) by {
                if c != pal - 1 {
                    assert(pals[c] == before[c]);
                    assert((c + 1) as u8 != pal);
                }
            }
            lemma_sum_update(before@, N as int, (pal - 1) as int, pals[(pal - 1) as int]);
            assert(pals@ =~= before@.update((pal - 1) as int, pals[(pal - 1) as int]));
        }
        k = k + 1;
    }
    proof {
        assert(palets@.take(k as int) =~= palets@);
    }
    pals
}

/// The indices of `keys` in the order a stable sort by key gives them.
pub fn stable_order(keys: &Vec<usize>) -> (order: Vec<usize>)
    ensures
        stable_order_of(keys@, order@),
{
    let mut order: Vec<usize> = Vec::new();
    let mut i: usize = 0;
    while i < keys.len()
        invariant
            i <= keys.len(),
            order.len() == i,
            forall|a: int| 0 <= a < order.len() ==> #[trigger] order[a] < i,
            forall|a: int, b: int|
                0 <= a < b < order.len() ==> key_before(keys@, #[trigger] order[a] as int, #[trigger] order[b] as int),
        decreases keys.len() - i,
    {
        let mut p: usize = 0;
        while p < order.len() && keys[order[p]] <= keys[i]
            invariant
                p <= order.len(),
                forall|a: int| 0 <= a < order.len() ==> #[trigger] order[a] < i,
                i < keys.len(),
                forall|a: int| 0 <= a < p ==> keys@[#[trigger] order[a] as int] <= keys@[i as int],
            decreases order.len() - p,
        {
            p = p + 1;
        }
        let ghost before = order@;
        proof {
            assert forall|b: int| p <= b < before.len() implies keys@[i as int] < keys@[#[trigger] before[b] as int] by {
                if b > p {
                    assert(key_before(keys@, before[p as int] as int, before[b] as int));
                }
            }
        }
        order.insert(p, i);
        proof {
            assert(order@ =~= before.insert(p as int, i));
            assert forall|a: int, b: int|
                0 <= a < b < order.len() implies key_before(keys@, #[trigger] order[a] as int, #[trigger] order[b] as int) by {
                if a < p && b < p {
                } else if a < p && b == p {
                } else if a < p && b > p {
                    assert(order[b] == before[b - 1]);
                } else if a == p {
                    assert(order[b] == before[b - 1]);
                } else {
                    assert(order[a] == before[a - 1]);
                    assert(order[b] == before[b - 1]);
                }
            }
        }
        i = i + 1;
    }
    order
}

/// Whether the instance suits the searches: every city has a row and a
/// column of costs, no leg is so dear that a plan's cost overflows, and there
/// are `N_PALETS` palets, each bound for a city.
pub fn check_instance(cost_mat: &Costs, palets: &Palets) -> (ok: bool)
    ensures
        ok == (costs_fit(*cost_mat) && valid_palets(palets@) && palets@.len() == N_PALETS),
{
    let limit: usize = usize::MAX / (N_TRUCKS * (TRUCK_CAP + 1));
    proof {
        assert(limit == max_leg());
    }
    if palets.len() != N_PALETS || cost_mat.len() < N {
        return false;
    }
    let mut k: usize = 0;
    while k < palets.len()
        invariant
            k <= palets@.len(),
            forall|j: int| 0 <= j < k ==> valid_palet(#[trigger] palets@[j]),
        decreases palets@.len() - k,
    {
        if palets[k] < 1 || palets[k] as usize > N {
            return false;
        }
        k = k + 1;
    }
    let mut i: usize = 0;
    while i < N
        invariant
            i <= N,
            cost_mat@.len() >= N,
            limit == max_leg(),
            forall|a: int| 0 <= a < i ==> #[trigger] cost_mat@[a]@.len() >= N,
            forall|a: int, b: int| 0 <= a < i && 0 <= b < N ==> #[trigger] leg(*cost_mat, a, b) <= max_leg(),
        decreases N - i,
    {
        if cost_mat[i].len() < N {
            return false;
        }
        let mut j: usize = 0;
        while j < N
            invariant
                i < N,
                j <= N,
                cost_mat@.len() >= N,
                cost_mat@[i as int]@.len() >= N,
                limit == max_leg(),
                forall|a: int| 0 <= a < i ==> #[trigger] cost_mat@[a]@.len() >= N,
                forall|a: int, b: int| 0 <= a < i && 0 <= b < N ==> #[trigger] leg(*cost_mat, a, b) <= max_leg(),
                forall|b: int| 0 <= b < j ==> #[trigger] leg(*cost_mat, i as int, b) <= max_leg(),
            decreases N - j,
        {
            if cost_mat[i][j] > limit {
                proof {
                    assert(leg(*cost_mat, i as int, j as int) > max_leg());
                }
                return false;
            }
            j = j + 1;
        }
        i = i + 1;
    }
    true
}

} // verus!
