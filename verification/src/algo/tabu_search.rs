//! Tabu search: each round draws a hundred exchanges between trucks and
//! moves to the cheapest one whose slot pair is not tabu.

use super::greedy::Greedy;
use super::model::{
    costs_fit, flat, lemma_cost_fits, lemma_drawn_valid, lemma_entry_le_sum, lemma_stable_order_onto,
    lemma_sum_update, lemma_sum_zero, lemma_valid_counts, lemma_zeros_count, loaded_with, same_load,
    set_slot, slot, stable_order_of, sum_upto, trucks_cost, valid_palet, valid_palets, valid_trucks,
    lemma_flat_set, lemma_swap_same_load, lemma_same_load_valid, swapped, city_counts, key_before, is_dealt,
};
use super::{
    cost, count_palets, gen_neighbour_2, gen_sol, stable_order, Costs, Palets, Trucks, N, N_EVAL,
    N_TRUCKS, TRUCK_CAP,
};
use crate::rng::{home_step, next_usize, RNG};
use vstd::prelude::*;

verus! {

broadcast use {vstd::multiset::group_multiset_properties, vstd::seq_lib::group_to_multiset_ensures};

/// A restart goes back to the best plan where the home-made generator's draw,
/// taken as a fraction of `usize::MAX` the way a 64-bit float holds it, is
/// below 1/4: where the draw is below this.
pub const ELITE_BELOW: u64 = 4611686018427387648;

/// A restart goes to the long-term-memory plan where that fraction is below
/// 1/2 (and not below 1/4): where the draw is below this.
pub const MEMORY_BELOW: u64 = 9223372036854775296;

/// How often each truck has received a palet bound for each city.
pub type LongMemory = [[u16; N]; N_TRUCKS];

/// The keys of truck `t` in the long-term memory: how often it received a
/// palet of each city.
pub open spec fn memory_keys(memory: LongMemory, t: int) -> Seq<usize> {
    Seq::new(N as nat, |c: int| memory[t][c] as usize)
}

/// The palets that pass `r` through the ranking `order` takes from the first
/// `q` cities of it: one of each city that has more than `r` palets by
/// `counts`, in ranking order.
pub open spec fn lm_prefix(order: Seq<usize>, counts: Seq<usize>, r: int, q: int) -> Seq<u8> {
    order.take(q).filter(|c: usize| counts[c as int] > r).map_values(|c: usize| (c + 1) as u8)
}

/// The palets of pass `r` through the ranking `order`.
pub open spec fn lm_pass(order: Seq<usize>, counts: Seq<usize>, r: int) -> Seq<u8> {
    lm_prefix(order, counts, r, order.len() as int)
}

/// The palets of the first `r` passes, one pass after another.
pub open spec fn lm_passes(order: Seq<usize>, counts: Seq<usize>, r: int) -> Seq<u8>
    decreases r,
{
    if r <= 0 {
        Seq::empty()
    } else {
        lm_passes(order, counts, r - 1) + lm_pass(order, counts, r - 1)
    }
}

/// The load of a truck in the long-term-memory plan: the first `TRUCK_CAP`
/// palets of the passes through its ranking `order`, from the palets left
/// `counts`.
pub open spec fn lm_row(order: Seq<usize>, counts: Seq<usize>) -> Seq<u8> {
    lm_passes(order, counts, TRUCK_CAP as int).take(TRUCK_CAP as int)
}

/// The palets left after that truck is loaded.
pub open spec fn lm_left(order: Seq<usize>, counts: Seq<usize>) -> Seq<usize> {
    Seq::new(N as nat, |c: int| (counts[c] - lm_row(order, counts).to_multiset().count((c + 1) as u8)) as usize)
}

/// Truck `i` of `sol` was loaded by the long-term-memory rule: its ranking
/// `orders[i]` sorts its memory keys stably, its load is `lm_row`, and it
/// leaves `counts[i + 1]`.
pub open spec fn lm_truck(memory: LongMemory, sol: Trucks, orders: Seq<Seq<usize>>, counts: Seq<Seq<usize>>, i: int) -> bool {
    &&& stable_order_of(memory_keys(memory, i), orders[i])
    &&& sol[i]@ == lm_row(orders[i], counts[i])
    &&& counts[i + 1] == lm_left(orders[i], counts[i])
}

/// `sol` is the long-term-memory plan of `memory` for the palets `ps`.
pub open spec fn lm_plan(memory: LongMemory, ps: Seq<u8>, sol: Trucks, orders: Seq<Seq<usize>>, counts: Seq<Seq<usize>>) -> bool {
    &&& orders.len() == N_TRUCKS
    &&& counts.len() == N_TRUCKS + 1
    &&& counts[0] == city_counts(ps)
    &&& forall|i: int| 0 <= i < N_TRUCKS ==> #[trigger] lm_truck(memory, sol, orders, counts, i)
}

/// Scanning one more city of the ranking adds its palet where it has one.
proof fn lemma_lm_prefix_step(order: Seq<usize>, counts: Seq<usize>, r: int, q: int)
    requires
        0 <= q < order.len(),
    ensures
        lm_prefix(order, counts, r, q + 1) == if counts[order[q] as int] > r {
            lm_prefix(order, counts, r, q).push((order[q] + 1) as u8)
        } else {
            lm_prefix(order, counts, r, q)
        },
{
    let pred = |c: usize| counts[c as int] > r;
    assert(order.take(q + 1) =~= order.take(q).push(order[q]));
    order.take(q).lemma_filter_push(order[q], pred);
    let f = |c: usize| (c + 1) as u8;
    let fl = order.take(q).filter(pred);
    assert(fl.push(order[q]).map_values(f) =~= fl.map_values(f).push(f(order[q])));
}

/// What a pass takes from the first `q` cities is the start of what it takes
/// from the first `n`.
proof fn lemma_lm_prefix_prefix(order: Seq<usize>, counts: Seq<usize>, r: int, q: int, n: int)
    requires
        0 <= q <= n <= order.len(),
    ensures
        lm_prefix(order, counts, r, q).len() <= lm_prefix(order, counts, r, n).len(),
        lm_prefix(order, counts, r, n).take(lm_prefix(order, counts, r, q).len() as int) == lm_prefix(order, counts, r, q),
    decreases n - q,
{
    if q < n {
        lemma_lm_prefix_prefix(order, counts, r, q, n - 1);
        lemma_lm_prefix_step(order, counts, r, n - 1);
        let a = lm_prefix(order, counts, r, q);
        let b = lm_prefix(order, counts, r, n - 1);
        assert(b.take(a.len() as int) == a);
        if counts[order[n - 1] as int] > r {
            assert(b.push((order[n - 1] + 1) as u8).take(a.len() as int) =~= b.take(a.len() as int));
        }
    } else {
        assert(lm_prefix(order, counts, r, n).take(lm_prefix(order, counts, r, q).len() as int) =~= lm_prefix(order, counts, r, q));
    }
}

/// The first `a` passes are the start of the first `b`.
proof fn lemma_lm_passes_prefix(order: Seq<usize>, counts: Seq<usize>, a: int, b: int)
    requires
        0 <= a <= b,
    ensures
        lm_passes(order, counts, a).len() <= lm_passes(order, counts, b).len(),
        lm_passes(order, counts, b).take(lm_passes(order, counts, a).len() as int) == lm_passes(order, counts, a),
    decreases b - a,
{
    if a < b {
        lemma_lm_passes_prefix(order, counts, a, b - 1);
        let pa = lm_passes(order, counts, a);
        let pb = lm_passes(order, counts, b - 1);
        assert((pb + lm_pass(order, counts, b - 1)).take(pa.len() as int) =~= pb.take(pa.len() as int));
    } else {
        assert(lm_passes(order, counts, b).take(lm_passes(order, counts, a).len() as int) =~= lm_passes(order, counts, a));
    }
}

/// A load of `TRUCK_CAP` palets made of the first `p` passes and the start of
/// pass `p` is the long-term-memory load.
proof fn lemma_lm_finish(order: Seq<usize>, counts: Seq<usize>, p: int, q: int)
    requires
        0 <= p < TRUCK_CAP,
        0 <= q <= order.len(),
        (lm_passes(order, counts, p) + lm_prefix(order, counts, p, q)).len() == TRUCK_CAP,
    ensures
        lm_passes(order, counts, p) + lm_prefix(order, counts, p, q) == lm_row(order, counts),
{
    let a = lm_passes(order, counts, p);
    let x = lm_prefix(order, counts, p, q);
    let full = lm_pass(order, counts, p);
    lemma_lm_prefix_prefix(order, counts, p, q, order.len() as int);
    assert(x == full.take(x.len() as int));
    let b = lm_passes(order, counts, p + 1);
    assert(b == a + full);
    assert(a + x =~= b.take(TRUCK_CAP as int));
    lemma_lm_passes_prefix(order, counts, p + 1, TRUCK_CAP as int);
    let c = lm_passes(order, counts, TRUCK_CAP as int);
    assert(c.take(b.len() as int) == b);
    assert(b.take(TRUCK_CAP as int) =~= c.take(TRUCK_CAP as int));
}

/// Tabu times all at 0.
pub open spec fn no_tabu() -> Seq<Seq<usize>> {
    Seq::new(N as nat, |i: int| Seq::new(N as nat, |j: int| 0usize))
}

/// Every tabu time of `t` down by one (those at 0 stay there).
pub open spec fn aged(t: Seq<Seq<usize>>) -> Seq<Seq<usize>> {
    Seq::new(
        N as nat,
        |i: int|
            Seq::new(
                N as nat,
                |j: int|
                    if t[i][j] > 0 {
                        (t[i][j] - 1) as usize
                    } else {
                        0usize
                    },
            ),
    )
}

/// `t` with the pair of slot positions `(from, to)` tabu for `tt` rounds.
pub open spec fn set_tabu(t: Seq<Seq<usize>>, from: int, to: int, tt: usize) -> Seq<Seq<usize>> {
    t.update(from, t[from].update(to, tt))
}

/// The home-made generator from state `h` redraws the second slot position
/// of a candidate, below `N_TRUCKS`, while it equals the first (`from`), at
/// most `fuel` times: the state and the position it ends with.
pub open spec fn redraw_to(h: isize, to: usize, from: usize, fuel: nat) -> (isize, usize)
    decreases fuel,
{
    if to != from || fuel == 0 {
        (h, to)
    } else {
        let h2 = home_step(h);
        redraw_to(h2, (h2 as usize) % N_TRUCKS, from, (fuel - 1) as nat)
    }
}

/// The draws of one candidate exchange from the home-made generator at state
/// `h`: the first slot position, the second, the two trucks, then the second
/// slot position redrawn while it equals the first (after `usize::MAX`
/// redraws the next position, or 0, is taken). Gives the state after the
/// draws and the exchange (first slot, second slot, first truck, second
/// truck).
pub open spec fn ts_draw(h: isize) -> (isize, (usize, usize, usize, usize)) {
    let h1 = home_step(h);
    let from = (h1 as usize) % TRUCK_CAP;
    let h2 = home_step(h1);
    let h3 = home_step(h2);
    let h4 = home_step(h3);
    let r = redraw_to(h4, (h2 as usize) % TRUCK_CAP, from, usize::MAX as nat);
    let to = if r.1 == from {
        if from + 1 < TRUCK_CAP {
            (from + 1) as usize
        } else {
            0usize
        }
    } else {
        r.1
    };
    (r.0, (from, to, (h3 as usize) % N_TRUCKS, (h4 as usize) % N_TRUCKS))
}

/// `n` candidate exchanges drawn one after another from state `h`: the state
/// after them, and the exchanges in order.
pub open spec fn ts_draws(h: isize, n: nat) -> (isize, Seq<(usize, usize, usize, usize)>)
    decreases n,
{
    if n == 0 {
        (h, Seq::empty())
    } else {
        let prev = ts_draws(h, (n - 1) as nat);
        let d = ts_draw(prev.0);
        (d.0, prev.1.push(d.1))
    }
}

/// The costs of the plans `cands`.
pub open spec fn plan_costs(m: Costs, cands: Seq<Trucks>) -> Seq<usize> {
    cands.map_values(|c: Trucks| trucks_cost(m, c) as usize)
}

/// The candidates of a round: `moves[x]` names slot `.0` of truck `.2` and
/// slot `.1` of truck `.3`, and `cands[x]` is `cur` with those two slots
/// exchanged.
pub open spec fn ts_cands(cur: Trucks, moves: Seq<(usize, usize, usize, usize)>, cands: Seq<Trucks>) -> bool {
    &&& moves.len() == 100
    &&& cands.len() == 100
    &&& forall|x: int|
        0 <= x < 100 ==> {
            &&& (#[trigger] moves[x]).0 < TRUCK_CAP
            &&& moves[x].1 < TRUCK_CAP
            &&& moves[x].2 < N_TRUCKS
            &&& moves[x].3 < N_TRUCKS
            &&& swapped(cur, cands[x], moves[x].2 as int, moves[x].0 as int, moves[x].3 as int, moves[x].1 as int)
        }
}

/// Position `r` of the ranking `order` is the first whose pair of slot
/// positions is not tabu by `tabu`; `r` is 100 where every pair is tabu.
pub open spec fn ts_first_free(tabu: Seq<Seq<usize>>, moves: Seq<(usize, usize, usize, usize)>, order: Seq<usize>, r: int) -> bool {
    &&& 0 <= r <= 100
    &&& forall|y: int| 0 <= y < r ==> #[trigger] tabu[moves[order[y] as int].0 as int][moves[order[y] as int].1 as int] != 0
    &&& r < 100 ==> tabu[moves[order[r] as int].0 as int][moves[order[r] as int].1 as int] == 0
}

/// `next` is the long-term memory `mem` after the exchange `mv` on `cur`:
/// each of the two trucks counts once more the city of the palet that left it.
pub open spec fn remembered(mem: LongMemory, cur: Trucks, mv: (usize, usize, usize, usize), next: LongMemory) -> bool {
    forall|t: int, c: int|
        0 <= t < N_TRUCKS && 0 <= c < N ==> #[trigger] next[t][c] == mem[t][c] + (if t == mv.2 && c == cur[mv.2 as int][mv.0 as int] - 1 {
            1int
        } else {
            0int
        }) + (if t == mv.3 && c == cur[mv.3 as int][mv.1 as int] - 1 {
            1int
        } else {
            0int
        })
}

/// One round of the tabu search from the plan `cur` with tabu times `tabu`,
/// tabu time `tt`, long-term memory `mem` and the home-made generator at
/// state `h`: a hundred candidate exchanges are drawn (`ts_draws`, leaving
/// the generator at `next_h`) and ranked by cost (stably), the search moves
/// to the first one whose pair of slot positions is not tabu (or stays where
/// every pair is), that pair becomes tabu for `tt` and the memory remembers
/// the exchange, and every tabu time then goes down by one, giving
/// `next_tabu`.
pub open spec fn ts_round(
    m: Costs,
    tt: usize,
    tabu: Seq<Seq<usize>>,
    mem: LongMemory,
    h: isize,
    cur: Trucks,
    next_h: isize,
    next_tabu: Seq<Seq<usize>>,
    next_mem: LongMemory,
    next: Trucks,
) -> bool {
    &&& next_h == ts_draws(h, 100).0
    &&& exists|moves: Seq<(usize, usize, usize, usize)>, cands: Seq<Trucks>, order: Seq<usize>, r: int|
        moves == ts_draws(h, 100).1 && #[trigger] ts_cands(cur, moves, cands) && stable_order_of(plan_costs(m, cands), order)
            && #[trigger] ts_first_free(tabu, moves, order, r) && (r < 100 ==> next == cands[order[r] as int]
            && next_tabu == aged(set_tabu(tabu, moves[order[r] as int].0 as int, moves[order[r] as int].1 as int, tt))
            && remembered(mem, cur, moves[order[r] as int], next_mem))
            && (r == 100 ==> next == cur && next_tabu == aged(tabu) && next_mem == mem)
}

/// Tabu time after a restart that halves it: half, or 2 where that is 0.
pub open spec fn halved(tt: usize) -> usize {
    if tt / 2 < 1 {
        2
    } else {
        tt / 2
    }
}

/// Where a restart from the best plan `elite`, with the long-term memory
/// `mem` and the tabu time `tt`, leads when the home-made generator draws
/// `x`: below `ELITE_BELOW`, back to `elite`, and below `MEMORY_BELOW`, to
/// the long-term-memory plan, with the tabu time grown by half; otherwise to
/// a plan dealt at random from the palets `ps`, with the tabu time halved.
pub open spec fn ts_restart(ps: Seq<u8>, elite: Trucks, mem: LongMemory, tt: usize, x: usize, next: Trucks, next_tt: usize) -> bool {
    if (x as u64) < ELITE_BELOW {
        next == elite && next_tt == tt + tt / 2
    } else if (x as u64) < MEMORY_BELOW {
        (exists|orders: Seq<Seq<usize>>, counts: Seq<Seq<usize>>| #[trigger] lm_plan(mem, ps, next, orders, counts))
            && next_tt == tt + tt / 2
    } else {
        is_dealt(ps, next) && next_tt == halved(tt)
    }
}

/// Iteration `k` of the search, from the state at `k` to the state at
/// `k + 1` (draws counted, generator state, plan, tabu times, memory, tabu
/// time, best plan): a round (`ts_round`); where `restarts` holds and the
/// count of draws after the round is a multiple of `500 * N`, a restart
/// (`ts_restart`, on the generator's next value) that counts one more draw
/// and clears the tabu times; then the best plan becomes the new plan where
/// that is cheaper.
pub open spec fn ts_step(
    m: Costs,
    ps: Seq<u8>,
    restarts: bool,
    its: Seq<int>,
    homes: Seq<isize>,
    curs: Seq<Trucks>,
    tabus: Seq<Seq<Seq<usize>>>,
    mems: Seq<LongMemory>,
    tts: Seq<usize>,
    elites: Seq<Trucks>,
    k: int,
) -> bool {
    let count = its[k] + 100;
    let drawn = ts_draws(homes[k], 100).0;
    &&& exists|mid_tabu: Seq<Seq<usize>>, mid: Trucks|
        #[trigger] ts_round(m, tts[k], tabus[k], mems[k], homes[k], curs[k], drawn, mid_tabu, mems[k + 1], mid) && if restarts
            && count % (500 * N) as int == 0 {
            &&& its[k + 1] == count + 1
            &&& homes[k + 1] == home_step(drawn)
            &&& tabus[k + 1] == no_tabu()
            &&& ts_restart(ps, elites[k], mems[k + 1], tts[k], home_step(drawn) as usize, curs[k + 1], tts[k + 1])
        } else {
            &&& its[k + 1] == count
            &&& homes[k + 1] == drawn
            &&& tabus[k + 1] == mid_tabu
            &&& curs[k + 1] == mid
            &&& tts[k + 1] == tts[k]
        }
    &&& elites[k + 1] == if trucks_cost(m, curs[k + 1]) < trucks_cost(m, elites[k]) {
        curs[k + 1]
    } else {
        elites[k]
    }
}

/// The search from `sol`, with the tabu times `tabu` and the home-made
/// generator at state `h` at the start: its states, from draw count 0, the
/// plan `sol`, an empty memory and tabu time 4, each iteration a `ts_step`
/// taken while fewer than `N_EVAL` draws were made, and at least `N_EVAL`
/// made at the end.
pub open spec fn ts_trace(
    m: Costs,
    ps: Seq<u8>,
    restarts: bool,
    tabu: Seq<Seq<usize>>,
    h: isize,
    sol: Trucks,
    its: Seq<int>,
    homes: Seq<isize>,
    curs: Seq<Trucks>,
    tabus: Seq<Seq<Seq<usize>>>,
    mems: Seq<LongMemory>,
    tts: Seq<usize>,
    elites: Seq<Trucks>,
) -> bool {
    let n = its.len() - 1;
    &&& its.len() >= 1
    &&& homes.len() == its.len()
    &&& curs.len() == its.len()
    &&& tabus.len() == its.len()
    &&& mems.len() == its.len()
    &&& tts.len() == its.len()
    &&& elites.len() == its.len()
    &&& its[0] == 0
    &&& homes[0] == h
    &&& curs[0] == sol
    &&& tabus[0] == tabu
    &&& tts[0] == 4
    &&& elites[0] == sol
    &&& forall|t: int, c: int| 0 <= t < N_TRUCKS && 0 <= c < N ==> #[trigger] mems[0][t][c] == 0
    &&& forall|k: int| 0 <= k < n ==> its[k] < N_EVAL && #[trigger] ts_step(m, ps, restarts, its, homes, curs, tabus, mems, tts, elites, k)
    &&& its[n] >= N_EVAL
}

/// Iteration `k` of a trace is a `ts_step` where its round went from plan
/// `curs[k]` to `mid` with tabu times `mid_tabu`, and what follows the round
/// is as `ts_step` states it.
proof fn lemma_ts_step_from_round(
    m: Costs,
    ps: Seq<u8>,
    restarts: bool,
    its: Seq<int>,
    homes: Seq<isize>,
    curs: Seq<Trucks>,
    tabus: Seq<Seq<Seq<usize>>>,
    mems: Seq<LongMemory>,
    tts: Seq<usize>,
    elites: Seq<Trucks>,
    k: int,
    mid_tabu: Seq<Seq<usize>>,
    mid: Trucks,
)
    requires
        ts_round(m, tts[k], tabus[k], mems[k], homes[k], curs[k], ts_draws(homes[k], 100).0, mid_tabu, mems[k + 1], mid),
        restarts && (its[k] + 100) % (500 * N) as int == 0 ==> {
            &&& its[k + 1] == its[k] + 101
            &&& homes[k + 1] == home_step(ts_draws(homes[k], 100).0)
            &&& tabus[k + 1] == no_tabu()
            &&& ts_restart(ps, elites[k], mems[k + 1], tts[k], home_step(ts_draws(homes[k], 100).0) as usize, curs[k + 1], tts[k + 1])
        },
        !(restarts && (its[k] + 100) % (500 * N) as int == 0) ==> {
            &&& its[k + 1] == its[k] + 100
            &&& homes[k + 1] == ts_draws(homes[k], 100).0
            &&& tabus[k + 1] == mid_tabu
            &&& curs[k + 1] == mid
            &&& tts[k + 1] == tts[k]
        },
        elites[k + 1] == if trucks_cost(m, curs[k + 1]) < trucks_cost(m, elites[k]) {
            curs[k + 1]
        } else {
            elites[k]
        },
    ensures
        ts_step(m, ps, restarts, its, homes, curs, tabus, mems, tts, elites, k),
{
}

/// Pushing one more state onto a trace keeps its earlier steps, and the
/// counts before each stay below `N_EVAL` where the last one was.
proof fn lemma_ts_steps_extend(
    m: Costs,
    ps: Seq<u8>,
    restarts: bool,
    o_its: Seq<int>,
    o_homes: Seq<isize>,
    o_curs: Seq<Trucks>,
    o_tabus: Seq<Seq<Seq<usize>>>,
    o_mems: Seq<LongMemory>,
    o_tts: Seq<usize>,
    o_elites: Seq<Trucks>,
    its: Seq<int>,
    homes: Seq<isize>,
    curs: Seq<Trucks>,
    tabus: Seq<Seq<Seq<usize>>>,
    mems: Seq<LongMemory>,
    tts: Seq<usize>,
    elites: Seq<Trucks>,
)
    requires
        o_its.len() >= 1,
        o_homes.len() == o_its.len(),
        o_curs.len() == o_its.len(),
        o_tabus.len() == o_its.len(),
        o_mems.len() == o_its.len(),
        o_tts.len() == o_its.len(),
        o_elites.len() == o_its.len(),
        its == o_its.push(its.last()),
        homes == o_homes.push(homes.last()),
        curs == o_curs.push(curs.last()),
        tabus == o_tabus.push(tabus.last()),
        mems == o_mems.push(mems.last()),
        tts == o_tts.push(tts.last()),
        elites == o_elites.push(elites.last()),
        forall|k: int| 0 <= k < o_its.len() - 1 ==> #[trigger] o_its[k] < N_EVAL,
        forall|k: int| 0 <= k < o_its.len() - 1 ==> #[trigger] ts_step(m, ps, restarts, o_its, o_homes, o_curs, o_tabus, o_mems, o_tts, o_elites, k),
        o_its.last() < N_EVAL,
        ts_step(m, ps, restarts, its, homes, curs, tabus, mems, tts, elites, o_its.len() - 1),
    ensures
        forall|k: int| 0 <= k < its.len() - 1 ==> #[trigger] its[k] < N_EVAL,
        forall|k: int| 0 <= k < its.len() - 1 ==> #[trigger] ts_step(m, ps, restarts, its, homes, curs, tabus, mems, tts, elites, k),
{
    let n = o_its.len() - 1;
    assert forall|k: int| 0 <= k < its.len() - 1 implies #[trigger] its[k] < N_EVAL by {
        if k < n {
            assert(its[k] == o_its[k]);
        }
    }
    assert forall|k: int| 0 <= k < its.len() - 1 implies #[trigger] ts_step(m, ps, restarts, its, homes, curs, tabus, mems, tts, elites, k) by {
        if k < n {
            assert(ts_step(m, ps, restarts, o_its, o_homes, o_curs, o_tabus, o_mems, o_tts, o_elites, k));
            assert(its[k] == o_its[k] && its[k + 1] == o_its[k + 1]);
            assert(homes[k] == o_homes[k] && homes[k + 1] == o_homes[k + 1]);
            assert(curs[k] == o_curs[k] && curs[k + 1] == o_curs[k + 1]);
            assert(tabus[k] == o_tabus[k] && tabus[k + 1] == o_tabus[k + 1]);
            assert(mems[k] == o_mems[k] && mems[k + 1] == o_mems[k + 1]);
            assert(tts[k] == o_tts[k] && tts[k + 1] == o_tts[k + 1]);
            assert(elites[k] == o_elites[k] && elites[k + 1] == o_elites[k + 1]);
        }
    }
}

/// Tabu search over exchanges between trucks.
pub struct TabuSearch<'a> {
    cost_mat: &'a Costs,
    palets: &'a Palets,
    #[allow(unused)]
    trucks: Trucks,
    tabu_mat: [[usize; N]; N],
}

impl<'a> TabuSearch<'a> {
    /// The cost matrix.
    pub closed spec fn costs(&self) -> Costs {
        *self.cost_mat
    }

    /// The palets.
    pub closed spec fn palets(&self) -> Seq<u8> {
        self.palets@
    }

    /// Remaining tabu time of each pair of slot positions.
    pub closed spec fn tabu(&self) -> Seq<Seq<usize>> {
        self.tabu_mat@.map_values(|row: [usize; N]| row@)
    }

    /// The plan the search keeps beside its runs (all slots empty, 0, from
    /// `new` on).
    pub closed spec fn trucks(&self) -> Trucks {
        self.trucks
    }

    pub fn new(cost_mat: &'a Costs, palets: &'a Palets) -> (s: Self)
        ensures
            s.costs() == *cost_mat,
            s.palets() == palets@,
            s.tabu().len() == N,
            forall|i: int| 0 <= i < N ==> (#[trigger] s.tabu()[i]).len() == N,
            forall|i: int, j: int| 0 <= i < N && 0 <= j < N ==> #[trigger] s.tabu()[i][j] == 0,
            forall|i: int, j: int| 0 <= i < N_TRUCKS && 0 <= j < TRUCK_CAP ==> #[trigger] s.trucks()[i][j] == 0,
    {
        let s = TabuSearch {
            cost_mat,
            palets,
            trucks: [[0u8; TRUCK_CAP]; N_TRUCKS],
            tabu_mat: [[0usize; N]; N],
        };
        proof {
            assert forall|i: int, j: int| 0 <= i < N && 0 <= j < N implies #[trigger] s.tabu()[i][j] == 0 by {
                assert(s.tabu()[i] == s.tabu_mat[i]@);
            }
        }
        s
    }

    /// Runs the tabu search from a random plan (`gen_sol`), with restarts.
    pub fn run(&mut self, rng: &mut RNG) -> (elite: Trucks)
        requires
            costs_fit(old(self).costs()),
            valid_palets(old(self).palets()),
            old(self).palets().len() == N_TRUCKS * TRUCK_CAP,
        ensures
            final(self).costs() == old(self).costs(),
            final(self).palets() == old(self).palets(),
            valid_trucks(elite),
            flat(elite).to_multiset() == old(self).palets().to_multiset(),
            exists|start: Trucks, its: Seq<int>, homes: Seq<isize>, curs: Seq<Trucks>, tabus: Seq<Seq<Seq<usize>>>, mems: Seq<LongMemory>, tts: Seq<usize>, elites: Seq<Trucks>|
                #[trigger] ts_trace(old(self).costs(), old(self).palets(), true, old(self).tabu(), old(rng).home(), start, its, homes, curs, tabus, mems, tts, elites)
                    && elite == elites.last() && final(self).tabu() == tabus.last() && final(rng).home() == homes.last()
                    && is_dealt(old(self).palets(), start) && (elite == start || trucks_cost(old(self).costs(), elite)
                    < trucks_cost(old(self).costs(), start)),
    {
        let start = gen_sol(self.palets, rng);
        proof {
            super::model::lemma_loaded_full(start, self.palets@);
            lemma_drawn_valid(start, self.palets@);
        }
        self.run_with_start::<true>(start, rng)
    }

    /// Tabu search from `sol`. Until `N_EVAL` candidates have been drawn, each
    /// round draws `100` exchanges of two slots between two trucks of the
    /// current plan (with the home-made generator), ranks them by cost
    /// (stable), and moves to the cheapest one whose pair of slot positions is
    /// not tabu; that pair becomes tabu for the current tabu time, and every
    /// tabu time then goes down by one. With `B`, once the count of draws is a
    /// multiple of `500 * N`, the search restarts from the best plan, from the
    /// long-term memory, or from a random plan (a draw of the home-made
    /// generator below `ELITE_BELOW`, below `MEMORY_BELOW`, or neither), and
    /// the tabu time grows by half or halves. The best plan met is returned; `ts_trace` states the run
    /// iteration by iteration.
    #[verifier::loop_isolation(false)]
    #[verifier::spinoff_prover]
    #[verifier::rlimit(80)]
    pub fn run_with_start<const B: bool>(&mut self, sol: Trucks, rng: &mut RNG) -> (elite: Trucks)
        requires
            costs_fit(old(self).costs()),
            valid_palets(old(self).palets()),
            old(self).palets().len() == N_TRUCKS * TRUCK_CAP,
            valid_trucks(sol),
        ensures
            final(self).costs() == old(self).costs(),
            final(self).palets() == old(self).palets(),
            valid_trucks(elite),
            trucks_cost(old(self).costs(), elite) <= trucks_cost(old(self).costs(), sol),
            elite == sol || trucks_cost(old(self).costs(), elite) < trucks_cost(old(self).costs(), sol),
            !B ==> same_load(sol, elite),
            flat(sol).to_multiset() == old(self).palets().to_multiset() ==> flat(elite).to_multiset()
                == old(self).palets().to_multiset(),
            exists|its: Seq<int>, homes: Seq<isize>, curs: Seq<Trucks>, tabus: Seq<Seq<Seq<usize>>>, mems: Seq<LongMemory>, tts: Seq<usize>, elites: Seq<Trucks>|
                #[trigger] ts_trace(old(self).costs(), old(self).palets(), B, old(self).tabu(), old(rng).home(), sol, its, homes, curs, tabus, mems, tts, elites)
                    && elite == elites.last() && final(self).tabu() == tabus.last() && final(rng).home() == homes.last(),
    {
        let ghost m = self.costs();
        let ghost ps = self.palets();
        let greedy = Greedy::new(self.cost_mat, self.palets.clone());
        let _greedy_sol = greedy.run();
        proof {
            lemma_cost_fits(m, sol);
        }
        let mut elite = sol;
        let mut elite_cost = cost(self.cost_mat, &elite);
        let mut tabu_time: usize = 4;
        let mut it: usize = 0;
        let mut best_neigh_cost = elite_cost;
        let mut best_neigh_sol = elite;
        let mut moves: LongMemory = [[0u16; N]; N_TRUCKS];
        let ghost mut rounds: int = 0;
        let ghost mut restarted = false;
        let ghost full = flat(sol).to_multiset() == ps.to_multiset();
        let ghost mut its: Seq<int> = seq![0int];
        let ghost mut homes: Seq<isize> = seq![rng.home()];
        let ghost mut curs: Seq<Trucks> = seq![sol];
        let ghost mut tabus: Seq<Seq<Seq<usize>>> = seq![self.tabu()];
        let ghost mut mems: Seq<LongMemory> = seq![moves];
        let ghost mut tts: Seq<usize> = seq![4usize];
        let ghost mut elites: Seq<Trucks> = seq![sol];
        while it < N_EVAL
            invariant
                m == self.costs(),
                ps == self.palets(),
                self.cost_mat == old(self).cost_mat,
                self.palets == old(self).palets,
                costs_fit(m),
                valid_palets(ps),
                ps.len() == N_TRUCKS * TRUCK_CAP,
                valid_trucks(sol),
                full == (flat(sol).to_multiset() == ps.to_multiset()),
                0 <= rounds,
                100 * rounds <= it,
                it <= N_EVAL + 101,
                forall|t: int, c: int| 0 <= t < N_TRUCKS && 0 <= c < N ==> (#[trigger] moves[t][c]) as int <= 2 * rounds,
                it % 100 == if restarted { 1int } else { 0int },
                !restarted ==> tabu_time == 4,
                restarted ==> 1 <= tabu_time <= 9,
                valid_trucks(best_neigh_sol),
                best_neigh_cost == trucks_cost(m, best_neigh_sol),
                valid_trucks(elite),
                elite_cost == trucks_cost(m, elite),
                elite_cost <= trucks_cost(m, sol),
                elite == sol || elite_cost < trucks_cost(m, sol),
                !B ==> same_load(sol, best_neigh_sol) && same_load(sol, elite),
                full ==> flat(best_neigh_sol).to_multiset() == ps.to_multiset() && flat(elite).to_multiset()
                    == ps.to_multiset(),
                its.len() == rounds + 1,
                homes.len() == rounds + 1,
                curs.len() == rounds + 1,
                tabus.len() == rounds + 1,
                mems.len() == rounds + 1,
                tts.len() == rounds + 1,
                elites.len() == rounds + 1,
                its[0] == 0,
                homes[0] == old(rng).home(),
                curs[0] == sol,
                tabus[0] == old(self).tabu(),
                tts[0] == 4,
                elites[0] == sol,
                forall|t: int, c: int| 0 <= t < N_TRUCKS && 0 <= c < N ==> #[trigger] mems[0][t][c] == 0,
                its[rounds] == it,
                homes[rounds] == rng.home(),
                curs[rounds] == best_neigh_sol,
                tabus[rounds] == self.tabu(),
                mems[rounds] == moves,
                tts[rounds] == tabu_time,
                elites[rounds] == elite,
                forall|k: int| 0 <= k < rounds ==> #[trigger] its[k] < N_EVAL,
                forall|k: int| 0 <= k < rounds ==> #[trigger] ts_step(m, ps, B, its, homes, curs, tabus, mems, tts, elites, k),
            decreases N_EVAL + 101 - it,
        {
            let ghost it0 = it as int;
            let ghost mem0 = moves;
            let ghost cur0 = best_neigh_sol;
            let ghost tabu0 = self.tabu();
            let ghost elite0 = elite;
            let ghost tt0 = tabu_time;
            let ghost h0 = rng.home();
            let (next, next_cost) = self.tabu_round(&best_neigh_sol, best_neigh_cost, tabu_time, &mut moves, rng);
            let ghost mid_tabu = self.tabu();
            let ghost mid_h = rng.home();
            best_neigh_sol = next;
            best_neigh_cost = next_cost;
            it = it + 100;
            proof {
                assert(it % 100 == it0 % 100) by (nonlinear_arith)
                    requires
                        it == it0 + 100,
                ;
            }
            if it % (500 * N) == 0 && B {
                proof {
                    assert(it % 100 == 0) by (nonlinear_arith)
                        requires
                            it % 25000 == 0,
                    ;
                }
                let (restart_sol, restart_time) = self.restart(elite, &moves, tabu_time, rng);
                best_neigh_sol = restart_sol;
                proof {
                    lemma_cost_fits(m, best_neigh_sol);
                }
                best_neigh_cost = cost(self.cost_mat, &best_neigh_sol);
                it = it + 1;
                proof {
                    assert(it % 100 == 1) by (nonlinear_arith)
                        requires
                            (it - 1) % 100 == 0,
                    ;
                }
                tabu_time = restart_time;
                self.clear_tabu();
                proof {
                    restarted = true;
                    assert(self.tabu() =~= no_tabu()) by {
                        assert forall|i: int| 0 <= i < N implies #[trigger] self.tabu()[i] =~= no_tabu()[i] by {
                            assert forall|j: int| 0 <= j < N implies #[trigger] self.tabu()[i][j] == no_tabu()[i][j] by {
                            }
                            assert(self.tabu()[i] == self.tabu_mat[i]@);
                        }
                    }
                }
            }
            if best_neigh_cost < elite_cost {
                elite = best_neigh_sol;
                elite_cost = best_neigh_cost;
            }
            proof {
                let ghost o_its = its;
                let ghost o_homes = homes;
                let ghost o_curs = curs;
                let ghost o_tabus = tabus;
                let ghost o_mems = mems;
                let ghost o_tts = tts;
                let ghost o_elites = elites;
                its = its.push(it as int);
                homes = homes.push(rng.home());
                curs = curs.push(best_neigh_sol);
                tabus = tabus.push(self.tabu());
                mems = mems.push(moves);
                tts = tts.push(tabu_time);
                elites = elites.push(elite);
                assert(its[rounds] == it0 && curs[rounds] == cur0 && tabus[rounds] == tabu0 && mems[rounds] == mem0);
                assert(homes[rounds] == h0 && homes[rounds + 1] == rng.home());
                assert(tts[rounds] == tt0 && elites[rounds] == elite0);
                assert(its[rounds + 1] == it && curs[rounds + 1] == best_neigh_sol && tabus[rounds + 1] == self.tabu());
                assert(mems[rounds + 1] == moves && tts[rounds + 1] == tabu_time && elites[rounds + 1] == elite);
                assert(ts_round(m, tt0, tabu0, mem0, h0, cur0, mid_h, mid_tabu, mems[rounds + 1], next));
                if B && (it0 + 100) % (500 * N) as int == 0 {
                    assert(its[rounds + 1] == it0 + 101);
                    assert(tabus[rounds + 1] == no_tabu());
                    assert(homes[rounds + 1] == home_step(mid_h));
                    assert(ts_restart(ps, elites[rounds], mems[rounds + 1], tts[rounds], home_step(mid_h) as usize, curs[rounds + 1], tts[rounds + 1]));
                } else {
                    assert(its[rounds + 1] == it0 + 100);
                    assert(homes[rounds + 1] == mid_h);
                    assert(tabus[rounds + 1] == mid_tabu);
                    assert(curs[rounds + 1] == next);
                    assert(tts[rounds + 1] == tts[rounds]);
                }
                assert(elites[rounds + 1] == if trucks_cost(m, curs[rounds + 1]) < trucks_cost(m, elites[rounds]) {
                    curs[rounds + 1]
                } else {
                    elites[rounds]
                });
                lemma_ts_step_from_round(m, ps, B, its, homes, curs, tabus, mems, tts, elites, rounds, mid_tabu, next);
                lemma_ts_steps_extend(m, ps, B, o_its, o_homes, o_curs, o_tabus, o_mems, o_tts, o_elites, its, homes, curs, tabus, mems, tts, elites);
                rounds = rounds + 1;
            }
        }
        proof {
            assert(ts_trace(m, ps, B, old(self).tabu(), old(rng).home(), sol, its, homes, curs, tabus, mems, tts, elites));
        }
        elite
    }

    /// One round of the search from `cur` (of cost `cur_cost`), as `ts_round`
    /// states it with the tabu time `tabu_time` and the long-term memory
    /// `memory`; gives the plan the search moves to and its cost.
    fn tabu_round(
        &mut self,
        cur: &Trucks,
        cur_cost: usize,
        tabu_time: usize,
        memory: &mut LongMemory,
        rng: &mut RNG,
    ) -> (res: (Trucks, usize))
        requires
            costs_fit(old(self).costs()),
            valid_trucks(*cur),
            cur_cost == trucks_cost(old(self).costs(), *cur),
            forall|t: int, c: int| 0 <= t < N_TRUCKS && 0 <= c < N ==> (#[trigger] old(memory)[t][c]) < 60000,
        ensures
            final(self).costs() == old(self).costs(),
            final(self).palets() == old(self).palets(),
            final(self).cost_mat == old(self).cost_mat,
            final(self).palets == old(self).palets,
            ts_round(old(self).costs(), tabu_time, old(self).tabu(), *old(memory), old(rng).home(), *cur, final(rng).home(), final(self).tabu(), *final(memory), res.0),
            final(rng).seeded() == old(rng).seeded(),
            valid_trucks(res.0),
            same_load(*cur, res.0),
            res.1 == trucks_cost(old(self).costs(), res.0),
            forall|t: int, c: int| 0 <= t < N_TRUCKS && 0 <= c < N ==> (#[trigger] final(memory)[t][c]) <= old(memory)[t][c] + 2,
    {
        let ghost m = self.costs();
        let ghost tabu0 = self.tabu();
        let ghost mem0 = *memory;
        let (cand_moves, prices, cand_sols) = self.draw_candidates(cur, 100, rng);
        let order = stable_order(&prices);
        proof {
            assert(prices@ =~= plan_costs(m, cand_sols@));
            assert(ts_cands(*cur, cand_moves@, cand_sols@));
        }
        let mut next = *cur;
        let mut next_cost = cur_cost;
        let mut k: usize = 0;
        let mut found = false;
        let ghost mut r: int = 100;
        while k < order.len() && !found
            invariant
                k <= order@.len(),
                order@.len() == 100,
                stable_order_of(prices@, order@),
                forall|x: int| 0 <= x < 100 ==> (#[trigger] order@[x]) < 100,
                ts_cands(*cur, cand_moves@, cand_sols@),
                prices@.len() == 100,
                forall|x: int| 0 <= x < 100 ==> #[trigger] prices@[x] == trucks_cost(m, cand_sols@[x]),
                forall|x: int| 0 <= x < 100 ==> valid_trucks(#[trigger] cand_sols@[x]),
                forall|x: int| 0 <= x < 100 ==> same_load(*cur, #[trigger] cand_sols@[x]),
                m == self.costs(),
                self.cost_mat == old(self).cost_mat,
                self.palets == old(self).palets,
                tabu0 == old(self).tabu(),
                mem0 == *old(memory),
                valid_trucks(*cur),
                cur_cost == trucks_cost(m, *cur),
                valid_trucks(next),
                same_load(*cur, next),
                next_cost == trucks_cost(m, next),
                !found ==> forall|y: int| 0 <= y < k ==> #[trigger] tabu0[cand_moves@[order@[y] as int].0 as int][cand_moves@[order@[y] as int].1 as int] != 0,
                !found ==> self.tabu() == tabu0 && next == *cur && *memory == mem0,
                found ==> 0 <= r < k && ts_first_free(tabu0, cand_moves@, order@, r) && next == cand_sols@[order@[r] as int]
                    && self.tabu() == set_tabu(tabu0, cand_moves@[order@[r] as int].0 as int, cand_moves@[order@[r] as int].1 as int, tabu_time)
                    && remembered(mem0, *cur, cand_moves@[order@[r] as int], *memory),
                forall|t: int, c: int| 0 <= t < N_TRUCKS && 0 <= c < N ==> (#[trigger] memory[t][c]) <= mem0[t][c] + if found { 2int } else { 0int },
                forall|t: int, c: int| 0 <= t < N_TRUCKS && 0 <= c < N ==> (#[trigger] mem0[t][c]) < 60000,
            decreases order@.len() - k,
        {
            let idx = order[k];
            let (from, to, truck_a, truck_b) = cand_moves[idx];
            proof {
                assert(self.tabu()[from as int] == self.tabu_mat[from as int]@);
            }
            if self.tabu_mat[from][to] == 0 {
                next = cand_sols[idx];
                next_cost = prices[idx];
                self.tabu_mat[from][to] = tabu_time;
                proof {
                    assert forall|i: int| 0 <= i < N implies #[trigger] self.tabu()[i] == set_tabu(tabu0, from as int, to as int, tabu_time)[i] by {
                        assert(self.tabu()[i] == self.tabu_mat[i]@);
                        assert(tabu0[i] == old(self).tabu_mat[i]@);
                        if i == from {
                            assert(self.tabu_mat[i]@ =~= tabu0[i].update(to as int, tabu_time));
                        }
                    }
                    assert(self.tabu() =~= set_tabu(tabu0, from as int, to as int, tabu_time));
                    r = k as int;
                    assert(ts_first_free(tabu0, cand_moves@, order@, r));
                    assert(swapped(*cur, next, truck_a as int, from as int, truck_b as int, to as int));
                }
                let pal_a = next[truck_a][from] as usize - 1;
                let pal_b = next[truck_b][to] as usize - 1;
                memory[truck_a][pal_b] = memory[truck_a][pal_b] + 1;
                memory[truck_b][pal_a] = memory[truck_b][pal_a] + 1;
                proof {
                    assert(remembered(mem0, *cur, cand_moves@[order@[r] as int], *memory));
                }
                found = true;
            }
            k = k + 1;
        }
        proof {
            if !found {
                r = 100;
                assert(ts_first_free(tabu0, cand_moves@, order@, r));
            }
        }
        let ghost t_mid = self.tabu();
        self.age_tabu();
        proof {
            assert forall|i: int| 0 <= i < N implies #[trigger] self.tabu()[i] =~= aged(t_mid)[i] by {
                assert forall|j: int| 0 <= j < N implies #[trigger] self.tabu()[i][j] == aged(t_mid)[i][j] by {
                }
                assert(self.tabu()[i] == self.tabu_mat[i]@);
            }
            assert(self.tabu() =~= aged(t_mid));
            assert(ts_round(m, tabu_time, tabu0, mem0, old(rng).home(), *cur, rng.home(), self.tabu(), *memory, next));
        }
        (next, next_cost)
    }

    /// A restart of the search, as `ts_restart` states it: from the best plan
    /// `elite` where the home-made generator draws below `ELITE_BELOW`, from
    /// the long-term memory where it draws below `MEMORY_BELOW`, from a random
    /// plan otherwise; gives the new plan and tabu time.
    fn restart(&self, elite: Trucks, memory: &LongMemory, tabu_time: usize, rng: &mut RNG) -> (res: (Trucks, usize))
        requires
            valid_palets(self.palets()),
            self.palets().len() == N_TRUCKS * TRUCK_CAP,
            valid_trucks(elite),
            1 <= tabu_time <= 6,
        ensures
            ts_restart(self.palets(), elite, *memory, tabu_time, home_step(old(rng).home()) as usize, res.0, res.1),
            final(rng).home() == home_step(old(rng).home()),
            1 <= res.1 <= 9,
            valid_trucks(res.0),
            res.0 == elite || flat(res.0).to_multiset() == self.palets().to_multiset(),
    {
        let x = next_usize(rng);
        if (x as u64) < ELITE_BELOW {
            (elite, tabu_time + tabu_time / 2)
        } else if (x as u64) < MEMORY_BELOW {
            (self.long_memory_sol(memory), tabu_time + tabu_time / 2)
        } else {
            let sol = gen_sol(self.palets, rng);
            proof {
                super::model::lemma_loaded_full(sol, self.palets@);
                lemma_drawn_valid(sol, self.palets@);
            }
            let mut tt = tabu_time / 2;
            if tt < 1 {
                tt = 2;
            }
            (sol, tt)
        }
    }

    /// `count` candidate exchanges of two slots between two trucks of
    /// `base`, drawn with the home-made generator: their slot positions and
    /// trucks, their costs, and the plans they give.
    fn draw_candidates(&self, base: &Trucks, count: usize, rng: &mut RNG) -> (r: (
        Vec<(usize, usize, usize, usize)>,
        Vec<usize>,
        Vec<Trucks>,
    ))
        requires
            costs_fit(self.costs()),
            valid_trucks(*base),
        ensures
            r.0@.len() == count,
            r.1@.len() == count,
            r.2@.len() == count,
            forall|x: int| 0 <= x < count ==> {
                &&& (#[trigger] r.0@[x]).0 < TRUCK_CAP
                &&& r.0@[x].1 < TRUCK_CAP
                &&& r.0@[x].2 < N_TRUCKS
                &&& r.0@[x].3 < N_TRUCKS
            },
            forall|x: int| 0 <= x < count ==> valid_trucks(#[trigger] r.2@[x]),
            forall|x: int| 0 <= x < count ==> same_load(*base, #[trigger] r.2@[x]),
            forall|x: int| 0 <= x < count ==> #[trigger] r.1@[x] == trucks_cost(self.costs(), r.2@[x]),
            forall|x: int| 0 <= x < count ==> #[trigger] swapped(*base, r.2@[x], r.0@[x].2 as int, r.0@[x].0 as int, r.0@[x].3 as int, r.0@[x].1 as int),
            (final(rng).home(), r.0@) == ts_draws(old(rng).home(), count as nat),
            final(rng).seeded() == old(rng).seeded(),
    {
        let ghost m = self.costs();
        let mut cand_moves: Vec<(usize, usize, usize, usize)> = Vec::new();
        let mut cand_costs: Vec<usize> = Vec::new();
        let mut cand_sols: Vec<Trucks> = Vec::new();
        let mut c: usize = 0;
        while c < count
            invariant
                c <= count,
                m == self.costs(),
                costs_fit(m),
                valid_trucks(*base),
                cand_moves@.len() == c,
                cand_costs@.len() == c,
                cand_sols@.len() == c,
                forall|x: int| 0 <= x < c ==> {
                    &&& (#[trigger] cand_moves@[x]).0 < TRUCK_CAP
                    &&& cand_moves@[x].1 < TRUCK_CAP
                    &&& cand_moves@[x].2 < N_TRUCKS
                    &&& cand_moves@[x].3 < N_TRUCKS
                },
                forall|x: int| 0 <= x < c ==> valid_trucks(#[trigger] cand_sols@[x]),
                forall|x: int| 0 <= x < c ==> same_load(*base, #[trigger] cand_sols@[x]),
                forall|x: int| 0 <= x < c ==> #[trigger] cand_costs@[x] == trucks_cost(m, cand_sols@[x]),
                forall|x: int| 0 <= x < c ==> #[trigger] swapped(*base, cand_sols@[x], cand_moves@[x].2 as int, cand_moves@[x].0 as int, cand_moves@[x].3 as int, cand_moves@[x].1 as int),
                (rng.home(), cand_moves@) == ts_draws(old(rng).home(), c as nat),
                rng.seeded() == old(rng).seeded(),
            decreases count - c,
        {
            let ghost h0 = rng.home();
            let from = next_usize(rng) % TRUCK_CAP;
            let ghost h1 = rng.home();
            let mut to = next_usize(rng) % TRUCK_CAP;
            let ghost h2 = rng.home();
            let truck_a = next_usize(rng) % N_TRUCKS;
            let truck_b = next_usize(rng) % N_TRUCKS;
            let ghost h4 = rng.home();
            let mut fuel: usize = usize::MAX;
            while to == from && fuel > 0
                invariant
                    to < TRUCK_CAP,
                    from < TRUCK_CAP,
                    redraw_to(rng.home(), to, from, fuel as nat) == redraw_to(h4, (h2 as usize) % TRUCK_CAP, from, usize::MAX as nat),
                    rng.seeded() == old(rng).seeded(),
                decreases fuel,
            {
                to = next_usize(rng) % N_TRUCKS;
                fuel = fuel - 1;
            }
            proof {
                assert(redraw_to(rng.home(), to, from, fuel as nat) == (rng.home(), to));
                assert(h1 == home_step(h0) && h2 == home_step(h1));
                let ghost prev = ts_draws(old(rng).home(), c as nat);
                assert(prev.0 == h0);
            }
            if to == from {
                to = if from + 1 < TRUCK_CAP {
                    from + 1
                } else {
                    0
                };
            }
            let cand_sol = gen_neighbour_2(base, true, truck_a, truck_b, from, to);
            proof {
                lemma_swap_same_load(*base, cand_sol, truck_a as int, from as int, truck_b as int, to as int);
                assert(flat(cand_sol).to_multiset().subset_of(flat(*base).to_multiset()));
                lemma_same_load_valid(*base, cand_sol);
                lemma_cost_fits(m, cand_sol);
            }
            let cand_cost = cost(self.cost_mat, &cand_sol);
            proof {
                assert(ts_draw(h0) == (rng.home(), (from, to, truck_a, truck_b)));
            }
            cand_moves.push((from, to, truck_a, truck_b));
            cand_costs.push(cand_cost);
            cand_sols.push(cand_sol);
            c = c + 1;
        }
        (cand_moves, cand_costs, cand_sols)
    }

    /// Every tabu time above 0 goes down by one.
    fn age_tabu(&mut self)
        ensures
            final(self).costs() == old(self).costs(),
            final(self).palets() == old(self).palets(),
            final(self).cost_mat == old(self).cost_mat,
            final(self).palets == old(self).palets,
            forall|i: int, j: int| 0 <= i < N && 0 <= j < N ==> #[trigger] final(self).tabu()[i][j] == if old(self).tabu()[i][j] > 0 {
                old(self).tabu()[i][j] - 1
            } else {
                0int
            },
    {
        let ghost t0 = self.tabu();
        let mut r: usize = 0;
        while r < N
            invariant
                r <= N,
                self.cost_mat == old(self).cost_mat,
                self.palets == old(self).palets,
                t0 == old(self).tabu(),
                forall|i: int, j: int| 0 <= i < N && 0 <= j < N ==> #[trigger] self.tabu_mat[i][j] == if i < r {
                    if t0[i][j] > 0 { t0[i][j] - 1 } else { 0 }
                } else {
                    t0[i][j] as int
                },
            decreases N - r,
        {
            let mut e: usize = 0;
            while e < N
                invariant
                    e <= N,
                    r < N,
                    self.cost_mat == old(self).cost_mat,
                    self.palets == old(self).palets,
                    t0 == old(self).tabu(),
                    forall|i: int, j: int| 0 <= i < N && 0 <= j < N ==> #[trigger] self.tabu_mat[i][j] == if i < r || (i == r && j < e) {
                        if t0[i][j] > 0 { t0[i][j] - 1 } else { 0 }
                    } else {
                        t0[i][j] as int
                    },
                decreases N - e,
            {
                if self.tabu_mat[r][e] > 0 {
                    self.tabu_mat[r][e] = self.tabu_mat[r][e] - 1;
                }
                e = e + 1;
            }
            r = r + 1;
        }
        proof {
            assert forall|i: int, j: int| 0 <= i < N && 0 <= j < N implies #[trigger] self.tabu()[i][j] == if t0[i][j] > 0 {
                t0[i][j] - 1
            } else {
                0int
            } by {
                assert(self.tabu()[i] == self.tabu_mat[i]@);
                assert(t0[i] == old(self).tabu_mat[i]@);
            }
        }
    }

    /// Every tabu time goes back to 0.
    fn clear_tabu(&mut self)
        ensures
            final(self).costs() == old(self).costs(),
            final(self).palets() == old(self).palets(),
            final(self).cost_mat == old(self).cost_mat,
            final(self).palets == old(self).palets,
            forall|i: int, j: int| 0 <= i < N && 0 <= j < N ==> #[trigger] final(self).tabu()[i][j] == 0,
    {
        self.tabu_mat = [[0usize; N]; N];
        proof {
            assert forall|i: int, j: int| 0 <= i < N && 0 <= j < N implies #[trigger] self.tabu()[i][j] == 0 by {
                assert(self.tabu()[i] == self.tabu_mat[i]@);
            }
        }
    }

    /// A plan built from the long-term memory: for each truck, the cities are
    /// ranked by how rarely that truck received them (stable, by city), and
    /// the truck takes, round after round through that ranking, one palet of
    /// each city that still has palets left, until it is full.
    pub fn long_memory_sol(&self, memory: &LongMemory) -> (sol: Trucks)
        requires
            valid_palets(self.palets()),
            self.palets().len() >= N_TRUCKS * TRUCK_CAP,
        ensures
            flat(sol).to_multiset().subset_of(self.palets().to_multiset()),
            self.palets().len() == N_TRUCKS * TRUCK_CAP ==> flat(sol).to_multiset() == self.palets().to_multiset(),
            valid_trucks(sol),
            exists|orders: Seq<Seq<usize>>, counts: Seq<Seq<usize>>| #[trigger] lm_plan(*memory, self.palets(), sol, orders, counts),
    {
        let ghost ps = self.palets();
        let mut pals = count_palets(self.palets);
        let mut new_sol: Trucks = [[0u8; TRUCK_CAP]; N_TRUCKS];
        let ghost mut orders: Seq<Seq<usize>> = Seq::empty();
        let ghost mut cnts: Seq<Seq<usize>> = seq![pals@];
        proof {
            assert forall|v: u8| #[trigger] flat(new_sol).to_multiset().count(v) == if v == 0 { 168int } else { 0 } by {
                assert(flat(new_sol) =~= Seq::new((N_TRUCKS * TRUCK_CAP) as nat, |i: int| 0u8));
                lemma_zeros_count(v);
            }
            assert(pals@ =~= city_counts(ps));
        }
        let mut i: usize = 0;
        while i < N_TRUCKS
            invariant
                i <= N_TRUCKS,
                ps == self.palets(),
                valid_palets(ps),
                ps.len() >= N_TRUCKS * TRUCK_CAP,
                sum_upto(pals@, N as int) + i * TRUCK_CAP == ps.len(),
                forall|v: u8| #[trigger] flat(new_sol).to_multiset().count(v) == if v == 0 {
                    (N_TRUCKS * TRUCK_CAP - i * TRUCK_CAP) as int
                } else if 1 <= v <= N {
                    ps.to_multiset().count(v) - pals[v - 1]
                } else {
                    0
                },
                forall|t: int, j: int| i <= t < N_TRUCKS && 0 <= j < TRUCK_CAP ==> #[trigger] new_sol[t][j] == 0,
                orders.len() == i,
                cnts.len() == i + 1,
                cnts[0] == city_counts(ps),
                cnts[i as int] == pals@,
                forall|t: int| 0 <= t < i ==> #[trigger] lm_truck(*memory, new_sol, orders, cnts, t),
            decreases N_TRUCKS - i,
        {
            let mut keys: Vec<usize> = Vec::new();
            let mut c: usize = 0;
            while c < N
                invariant
                    c <= N,
                    i < N_TRUCKS,
                    keys@.len() == c,
                    forall|x: int| 0 <= x < c ==> #[trigger] keys@[x] == memory[i as int][x] as usize,
                decreases N - c,
            {
                keys.push(memory[i][c] as usize);
                c = c + 1;
            }
            proof {
                assert(keys@ =~= memory_keys(*memory, i as int));
            }
            let sorted = stable_order(&keys);
            let ghost ord = sorted@;
            let ghost c0 = pals@;
            let ghost sol0 = new_sol;
            let ghost mut p: int = 0;
            proof {
                assert forall|x: int, y: int| 0 <= x < y < N implies #[trigger] ord[x] != #[trigger] ord[y] by {
                    assert(key_before(keys@, ord[x] as int, ord[y] as int));
                }
                assert(new_sol[i as int]@.take(0) =~= lm_passes(ord, c0, 0));
                assert forall|w: int| 0 <= w < N implies #[trigger] pals@[w] == c0[w] - new_sol[i as int]@.take(0).to_multiset().count((w + 1) as u8) by {
                    assert(new_sol[i as int]@.take(0) =~= Seq::<u8>::empty());
                }
            }
            let mut last: usize = 0;
            while last < TRUCK_CAP
                invariant
                    i < N_TRUCKS,
                    last <= TRUCK_CAP,
                    ps == self.palets(),
                    valid_palets(ps),
                    ps.len() >= N_TRUCKS * TRUCK_CAP,
                    stable_order_of(keys@, sorted@),
                    keys@.len() == N,
                    ord == sorted@,
                    forall|x: int, y: int| 0 <= x < y < N ==> #[trigger] ord[x] != #[trigger] ord[y],
                    sum_upto(pals@, N as int) + i * TRUCK_CAP + last == ps.len(),
                    forall|v: u8| #[trigger] flat(new_sol).to_multiset().count(v) == if v == 0 {
                        (N_TRUCKS * TRUCK_CAP - i * TRUCK_CAP - last) as int
                    } else if 1 <= v <= N {
                        ps.to_multiset().count(v) - pals[v - 1]
                    } else {
                        0
                    },
                    forall|t: int, j: int| i < t < N_TRUCKS && 0 <= j < TRUCK_CAP ==> #[trigger] new_sol[t][j] == 0,
                    forall|j: int| last <= j < TRUCK_CAP ==> #[trigger] new_sol[i as int][j] == 0,
                    forall|t: int| 0 <= t < N_TRUCKS && t != i ==> #[trigger] new_sol[t] == sol0[t],
                    0 <= p <= last,
                    last < TRUCK_CAP ==> new_sol[i as int]@.take(last as int) == lm_passes(ord, c0, p),
                    last < TRUCK_CAP ==> forall|x: int| 0 <= x < N ==> #[trigger] pals@[ord[x] as int] == c0[ord[x] as int] - if c0[ord[x] as int] < p {
                        c0[ord[x] as int] as int
                    } else {
                        p
                    },
                    last == TRUCK_CAP ==> new_sol[i as int]@ == lm_row(ord, c0),
                    forall|w: int| 0 <= w < N ==> #[trigger] pals@[w] == c0[w] - new_sol[i as int]@.take(last as int).to_multiset().count((w + 1) as u8),
                decreases TRUCK_CAP - last,
            {
                let ghost last0 = last;
                let mut q: usize = 0;
                while q < N && last < TRUCK_CAP
                    invariant
                        i < N_TRUCKS,
                        q <= N,
                        last0 <= last <= TRUCK_CAP,
                        last0 < TRUCK_CAP,
                        ps == self.palets(),
                        valid_palets(ps),
                        ps.len() >= N_TRUCKS * TRUCK_CAP,
                        stable_order_of(keys@, sorted@),
                        keys@.len() == N,
                        ord == sorted@,
                        forall|x: int, y: int| 0 <= x < y < N ==> #[trigger] ord[x] != #[trigger] ord[y],
                        sum_upto(pals@, N as int) + i * TRUCK_CAP + last == ps.len(),
                        forall|v: u8| #[trigger] flat(new_sol).to_multiset().count(v) == if v == 0 {
                            (N_TRUCKS * TRUCK_CAP - i * TRUCK_CAP - last) as int
                        } else if 1 <= v <= N {
                            ps.to_multiset().count(v) - pals[v - 1]
                        } else {
                            0
                        },
                        forall|t: int, j: int| i < t < N_TRUCKS && 0 <= j < TRUCK_CAP ==> #[trigger] new_sol[t][j] == 0,
                        forall|j: int| last <= j < TRUCK_CAP ==> #[trigger] new_sol[i as int][j] == 0,
                        forall|t: int| 0 <= t < N_TRUCKS && t != i ==> #[trigger] new_sol[t] == sol0[t],
                        last == last0 ==> forall|x: int| 0 <= x < q ==> #[trigger] pals[sorted@[x] as int] == 0,
                        0 <= p <= last0,
                        p < TRUCK_CAP,
                        new_sol[i as int]@.take(last as int) == lm_passes(ord, c0, p) + lm_prefix(ord, c0, p, q as int),
                        forall|x: int| 0 <= x < N ==> #[trigger] pals@[ord[x] as int] == c0[ord[x] as int] - if c0[ord[x] as int] < p + (if x < q && c0[ord[x] as int] > p { 1int } else { 0int }) {
                            c0[ord[x] as int] as int
                        } else {
                            p + (if x < q && c0[ord[x] as int] > p { 1int } else { 0int })
                        },
                        forall|w: int| 0 <= w < N ==> #[trigger] pals@[w] == c0[w] - new_sol[i as int]@.take(last as int).to_multiset().count((w + 1) as u8),
                    decreases N - q,
                {
                    let pos = sorted[q];
                    proof {
                        lemma_lm_prefix_step(ord, c0, p, q as int);
                        lemma_stable_order_onto(keys@, sorted@, 0);
                    }
                    if pals[pos] > 0 {
                        let ghost old_sol = new_sol;
                        let ghost old_pals = pals@;
                        let v = (pos as u8) + 1;
                        new_sol[i][last] = v;
                        pals[pos] = pals[pos] - 1;
                        proof {
                            assert(set_slot(old_sol, new_sol, i as int, last as int, v));
                            lemma_flat_set(old_sol, new_sol, i as int, last as int, v);
                            let fo = flat(old_sol);
                            let sl = slot(i as int, last as int);
                            assert(fo[sl] == 0);
                            vstd::seq_lib::to_multiset_update(fo, sl, v);
                            vstd::seq_lib::to_multiset_contains(fo, 0u8);
                            assert(fo.contains(0u8));
                            lemma_sum_update(old_pals, N as int, pos as int, pals[pos as int]);
                            assert(pals@ =~= old_pals.update(pos as int, pals[pos as int]));
                            assert forall|w: u8| #[trigger] flat(new_sol).to_multiset().count(w) == if w == 0 {
                                (N_TRUCKS * TRUCK_CAP - i * TRUCK_CAP - (last + 1)) as int
                            } else if 1 <= w <= N {
                                ps.to_multiset().count(w) - pals[w - 1]
                            } else {
                                0
                            } by {
                                if 1 <= w <= N && w != v {
                                    assert(pals[w - 1] == old_pals[w - 1]);
                                }
                            }
                            let row0 = old_sol[i as int]@.take(last as int);
                            assert(new_sol[i as int]@.take(last + 1) =~= row0.push(v));
                            assert(c0[pos as int] > p);
                            assert forall|x: int| 0 <= x < N implies #[trigger] pals@[ord[x] as int] == c0[ord[x] as int] - if c0[ord[x] as int] < p + (if x < q + 1 && c0[ord[x] as int] > p { 1int } else { 0int }) {
                                c0[ord[x] as int] as int
                            } else {
                                p + (if x < q + 1 && c0[ord[x] as int] > p { 1int } else { 0int })
                            } by {
                                if x != q {
                                    if x < q {
                                        assert(ord[x] != ord[q as int]);
                                    } else {
                                        assert(ord[q as int] != ord[x]);
                                    }
                                    assert(pals@[ord[x] as int] == old_pals[ord[x] as int]);
                                }
                            }
                            assert forall|w: int| 0 <= w < N implies #[trigger] pals@[w] == c0[w] - new_sol[i as int]@.take(last + 1).to_multiset().count((w + 1) as u8) by {
                                assert(old_pals[w] == c0[w] - row0.to_multiset().count((w + 1) as u8));
                                if w != pos {
                                    assert((w + 1) as u8 != v);
                                }
                            }
                        }
                        last = last + 1;
                    } else {
                        proof {
                            assert forall|x: int| 0 <= x < N implies #[trigger] pals@[ord[x] as int] == c0[ord[x] as int] - if c0[ord[x] as int] < p + (if x < q + 1 && c0[ord[x] as int] > p { 1int } else { 0int }) {
                                c0[ord[x] as int] as int
                            } else {
                                p + (if x < q + 1 && c0[ord[x] as int] > p { 1int } else { 0int })
                            } by {
                            }
                        }
                    }
                    q = q + 1;
                }
                proof {
                    if last == last0 {
                        assert forall|x: int| 0 <= x < N implies #[trigger] pals@[x] == 0 by {
                            lemma_stable_order_onto(keys@, sorted@, x);
                            let w = choose|w: int| 0 <= w < sorted@.len() && sorted@[w] == x;
                            assert(pals[sorted@[w] as int] == 0);
                        }
                        lemma_sum_zero(pals@, N as int);
                        assert(false);
                    }
                    if last == TRUCK_CAP {
                        lemma_lm_finish(ord, c0, p, q as int);
                        assert(new_sol[i as int]@ =~= new_sol[i as int]@.take(TRUCK_CAP as int));
                    }
                    if q == N {
                        assert(ord.take(N as int) =~= ord);
                        assert(lm_prefix(ord, c0, p, q as int) == lm_pass(ord, c0, p));
                        assert(lm_passes(ord, c0, p + 1) == lm_passes(ord, c0, p) + lm_pass(ord, c0, p));
                        p = p + 1;
                    }
                }
            }
            proof {
                let row = new_sol[i as int]@;
                assert(row.take(TRUCK_CAP as int) =~= row);
                assert(pals@ =~= lm_left(ord, c0));
                let old_orders = orders;
                let old_cnts = cnts;
                orders = orders.push(ord);
                cnts = cnts.push(pals@);
                assert(lm_truck(*memory, new_sol, orders, cnts, i as int));
                assert forall|t: int| 0 <= t < i + 1 implies #[trigger] lm_truck(*memory, new_sol, orders, cnts, t) by {
                    if t < i {
                        assert(lm_truck(*memory, sol0, old_orders, old_cnts, t));
                        assert(new_sol[t] == sol0[t]);
                        assert(orders[t] == old_orders[t]);
                        assert(cnts[t] == old_cnts[t]);
                        assert(cnts[t + 1] == old_cnts[t + 1]);
                    }
                }
            }
            i = i + 1;
        }
        proof {
            assert forall|v: u8| #[trigger] flat(new_sol).to_multiset().count(v) <= ps.to_multiset().count(v) by {
                if !valid_palet(v) {
                    lemma_valid_counts(ps, v);
                }
            }
            assert(flat(new_sol).to_multiset().subset_of(ps.to_multiset()));
            if ps.len() == N_TRUCKS * TRUCK_CAP {
                assert forall|v: u8| #[trigger] flat(new_sol).to_multiset().count(v) == ps.to_multiset().count(v) by {
                    if !valid_palet(v) {
                        lemma_valid_counts(ps, v);
                    } else {
                        lemma_entry_le_sum(pals@, N as int, v - 1);
                    }
                }
                assert(flat(new_sol).to_multiset() =~= ps.to_multiset());
            }
            lemma_drawn_valid(new_sol, ps);
            assert(lm_plan(*memory, ps, new_sol, orders, cnts));
        }
        new_sol
    }
}

} // verus!
