//! The mathematical model of a load plan: what a plan costs and which plans
//! hold the same palets.

use super::{Costs, Trucks, N, N_TRUCKS, TRUCK_CAP};
use vstd::prelude::*;

verus! {

broadcast use {vstd::multiset::group_multiset_properties, vstd::seq_lib::group_to_multiset_ensures};

/// A palet names the city it is bound for: the city of row `p - 1` of the
/// cost matrix, whose row 0 is the depot's.
pub open spec fn valid_palet(p: u8) -> bool {
    1 <= p <= N
}

/// Every palet of `ps` is bound for a city.
pub open spec fn valid_palets(ps: Seq<u8>) -> bool {
    forall|i: int| 0 <= i < ps.len() ==> valid_palet(#[trigger] ps[i])
}

/// Every slot of every truck holds a palet bound for a city.
pub open spec fn valid_trucks(t: Trucks) -> bool {
    forall|i: int, j: int|
        0 <= i < N_TRUCKS && 0 <= j < TRUCK_CAP ==> valid_palet(#[trigger] t[i][j])
}

/// The matrix has a row and a column for every city.
pub open spec fn costs_ok(m: Costs) -> bool {
    &&& m@.len() >= N
    &&& forall|i: int| 0 <= i < N ==> #[trigger] m@[i]@.len() >= N
}

/// Cost of going from city `i` to city `j`.
pub open spec fn leg(m: Costs, i: int, j: int) -> int {
    m@[i]@[j] as int
}

/// Largest leg for which no plan's cost can overflow a `usize`.
pub open spec fn max_leg() -> int {
    usize::MAX as int / (N_TRUCKS * (TRUCK_CAP + 1)) as int
}

/// The matrix covers every city, and no plan's cost overflows a `usize`.
pub open spec fn costs_fit(m: Costs) -> bool {
    &&& costs_ok(m)
    &&& forall|i: int, j: int| 0 <= i < N && 0 <= j < N ==> #[trigger] leg(m, i, j) <= max_leg()
}

/// Cost of a truck that stands at city `at`, has already called at the cities
/// of `seen`, and still has `stops` to go through before it returns to the
/// depot. A palet bound for a city already called at adds nothing.
pub open spec fn walk(m: Costs, stops: Seq<u8>, seen: Set<int>, at: int) -> int
    decreases stops.len(),
{
    if stops.len() == 0 {
        leg(m, at, 0)
    } else {
        let x = stops[0] - 1;
        if seen.contains(x) {
            walk(m, stops.drop_first(), seen, at)
        } else {
            leg(m, at, x) + walk(m, stops.drop_first(), seen.insert(x), x)
        }
    }
}

/// The matrix holds every cell that `walk` reads: a row for the city the
/// truck stands at and, in it, the column of the next city it calls at (or of
/// the depot at the end).
pub open spec fn walk_cells(m: Costs, stops: Seq<u8>, seen: Set<int>, at: int) -> bool
    decreases stops.len(),
{
    if stops.len() == 0 {
        0 <= at < m@.len() && 0 < m@[at]@.len()
    } else {
        let x = stops[0] - 1;
        if seen.contains(x) {
            walk_cells(m, stops.drop_first(), seen, at)
        } else {
            &&& 0 <= at < m@.len()
            &&& 0 <= x < m@[at]@.len()
            &&& walk_cells(m, stops.drop_first(), seen.insert(x), x)
        }
    }
}

/// The matrix holds every cell that the route of a truck carrying `stops`
/// reads.
pub open spec fn route_cells(m: Costs, stops: Seq<u8>) -> bool {
    walk_cells(m, stops, set![0int], 0)
}

/// A matrix that covers every city holds the cells of any walk over valid
/// palets.
pub proof fn lemma_walk_cells(m: Costs, stops: Seq<u8>, seen: Set<int>, at: int)
    requires
        costs_ok(m),
        0 <= at < N,
        forall|j: int| 0 <= j < stops.len() ==> valid_palet(#[trigger] stops[j]),
    ensures
        walk_cells(m, stops, seen, at),
    decreases stops.len(),
{
    if stops.len() > 0 {
        assert(valid_palet(stops[0]));
        let x = stops[0] - 1;
        if seen.contains(x) {
            lemma_walk_cells(m, stops.drop_first(), seen, at);
        } else {
            lemma_walk_cells(m, stops.drop_first(), seen.insert(x), x);
        }
    }
}

/// Cost of one truck that leaves the depot, calls at the cities of its palets
/// in the order of their first occurrence, and returns to the depot.
pub open spec fn route_cost(m: Costs, stops: Seq<u8>) -> int {
    walk(m, stops, set![0int], 0)
}

/// Cost of the first `n` trucks.
pub open spec fn cost_upto(m: Costs, t: Trucks, n: int) -> int
    decreases n,
{
    if n <= 0 {
        0
    } else {
        cost_upto(m, t, n - 1) + route_cost(m, t[n - 1]@)
    }
}

/// Cost of a load plan: the sum of the costs of its trucks.
pub open spec fn trucks_cost(m: Costs, t: Trucks) -> int {
    cost_upto(m, t, N_TRUCKS as int)
}

/// The slots of a plan, truck after truck.
pub open spec fn flat(t: Trucks) -> Seq<u8> {
    Seq::new(
        (N_TRUCKS * TRUCK_CAP) as nat,
        |k: int| t[k / TRUCK_CAP as int][k % TRUCK_CAP as int],
    )
}

/// Two plans hold the same palets, each as many times.
pub open spec fn same_load(a: Trucks, b: Trucks) -> bool {
    flat(a).to_multiset() == flat(b).to_multiset()
}

/// `b` is `a` with the palets of slot `pa` of truck `ta` and slot `pb` of truck
/// `tb` exchanged.
pub open spec fn swapped(a: Trucks, b: Trucks, ta: int, pa: int, tb: int, pb: int) -> bool {
    forall|i: int, j: int|
        0 <= i < N_TRUCKS && 0 <= j < TRUCK_CAP ==> #[trigger] b[i][j] == if i == ta && j == pa {
            a[tb][pb]
        } else if i == tb && j == pb {
            a[ta][pa]
        } else {
            a[i][j]
        }
}

/// Position of slot `j` of truck `i` in `flat`.
pub open spec fn slot(i: int, j: int) -> int {
    i * TRUCK_CAP + j
}

pub proof fn lemma_slot(i: int, j: int)
    requires
        0 <= i < N_TRUCKS,
        0 <= j < TRUCK_CAP,
    ensures
        0 <= slot(i, j) < N_TRUCKS * TRUCK_CAP,
        slot(i, j) / TRUCK_CAP as int == i,
        slot(i, j) % TRUCK_CAP as int == j,
{
    vstd::arithmetic::div_mod::lemma_fundamental_div_mod_converse(
        slot(i, j),
        TRUCK_CAP as int,
        i,
        j,
    );
}

pub proof fn lemma_slot_of(k: int)
    requires
        0 <= k < N_TRUCKS * TRUCK_CAP,
    ensures
        0 <= (k / TRUCK_CAP as int) < N_TRUCKS,
        0 <= (k % TRUCK_CAP as int) < TRUCK_CAP,
        slot(k / TRUCK_CAP as int, k % TRUCK_CAP as int) == k,
{
    vstd::arithmetic::div_mod::lemma_fundamental_div_mod(k, TRUCK_CAP as int);
}

/// A swap keeps the palets of a plan.
pub proof fn lemma_swap_same_load(a: Trucks, b: Trucks, ta: int, pa: int, tb: int, pb: int)
    requires
        0 <= ta < N_TRUCKS,
        0 <= tb < N_TRUCKS,
        0 <= pa < TRUCK_CAP,
        0 <= pb < TRUCK_CAP,
        swapped(a, b, ta, pa, tb, pb),
    ensures
        same_load(a, b),
{
    let ka = slot(ta, pa);
    let kb = slot(tb, pb);
    lemma_slot(ta, pa);
    lemma_slot(tb, pb);
    let fa = flat(a);
    let mid = fa.update(ka, a[tb][pb]);
    let fb = mid.update(kb, a[ta][pa]);
    assert forall|k: int| 0 <= k < N_TRUCKS * TRUCK_CAP implies #[trigger] flat(b)[k] == fb[k] by {
        lemma_slot_of(k);
        if k == ka {
            assert(k / TRUCK_CAP as int == ta && k % TRUCK_CAP as int == pa);
        } else if k == kb {
            assert(k / TRUCK_CAP as int == tb && k % TRUCK_CAP as int == pb);
        } else {
            assert(!(k / TRUCK_CAP as int == ta && k % TRUCK_CAP as int == pa));
            assert(!(k / TRUCK_CAP as int == tb && k % TRUCK_CAP as int == pb));
        }
    }
    assert(flat(b) =~= fb);
    vstd::seq_lib::to_multiset_update(fa, ka, a[tb][pb]);
    vstd::seq_lib::to_multiset_update(mid, kb, a[ta][pa]);
    let v1 = a[ta][pa];
    let v2 = a[tb][pb];
    assert(fa[ka] == v1);
    vstd::seq_lib::to_multiset_contains(fa, v1);
    assert(fa.contains(v1));
    let m = fa.to_multiset();
    assert(m.count(v1) > 0);
    if ka == kb {
        assert(mid[kb] == v2);
        assert(v1 == v2);
    } else {
        assert(mid[kb] == v2);
    }
    assert forall|v: u8| #[trigger] flat(b).to_multiset().count(v) == m.count(v) by {}
    assert(flat(b).to_multiset() =~= m);
}


/// Exchanging the same two slots twice gives the plan back.
pub proof fn lemma_swap_twice(a: Trucks, b: Trucks, c: Trucks, ta: int, pa: int, tb: int, pb: int)
    requires
        0 <= ta < N_TRUCKS,
        0 <= tb < N_TRUCKS,
        0 <= pa < TRUCK_CAP,
        0 <= pb < TRUCK_CAP,
        swapped(a, b, ta, pa, tb, pb),
        swapped(b, c, ta, pa, tb, pb),
    ensures
        c == a,
{
    assert forall|i: int| 0 <= i < N_TRUCKS implies #[trigger] c[i] == a[i] by {
        assert forall|j: int| 0 <= j < TRUCK_CAP implies #[trigger] c[i][j] == a[i][j] by {
            assert(c[i][j] == if i == ta && j == pa {
                b[tb][pb]
            } else if i == tb && j == pb {
                b[ta][pa]
            } else {
                b[i][j]
            });
        }
        assert(c[i] =~= a[i]);
    }
    assert(c =~= a);
}

/// The plan holds exactly the palets of `ps`, and empty slots (0) for the rest.
pub open spec fn loaded_with(t: Trucks, ps: Seq<u8>) -> bool {
    forall|v: u8|
        #[trigger] flat(t).to_multiset().count(v) == ps.to_multiset().count(v) + if v == 0 {
            (N_TRUCKS * TRUCK_CAP) as int - ps.len()
        } else {
            0
        }
}

/// `b` is `a` with two slots of one truck exchanged.
pub open spec fn move_in_truck(a: Trucks, b: Trucks) -> bool {
    exists|t: int, x: int, y: int|
        0 <= t < N_TRUCKS && 0 <= x < TRUCK_CAP && 0 <= y < TRUCK_CAP && x != y && #[trigger] swapped(
            a,
            b,
            t,
            x,
            t,
            y,
        )
}

/// `b` is `a` with a slot of one truck and a slot of another truck exchanged;
/// the two slots have different positions in their trucks.
pub open spec fn move_between_trucks(a: Trucks, b: Trucks) -> bool {
    exists|ta: int, x: int, tb: int, y: int|
        0 <= ta < N_TRUCKS && 0 <= tb < N_TRUCKS && ta != tb && 0 <= x < TRUCK_CAP && 0 <= y
            < TRUCK_CAP && x != y && #[trigger] swapped(a, b, ta, x, tb, y)
}

/// A move of either kind keeps the palets of a plan.
pub proof fn lemma_move_same_load(a: Trucks, b: Trucks)
    requires
        move_in_truck(a, b) || move_between_trucks(a, b),
    ensures
        same_load(a, b),
        valid_trucks(a) ==> valid_trucks(b),
{
    if move_in_truck(a, b) {
        let (t, x, y) = choose|t: int, x: int, y: int|
            0 <= t < N_TRUCKS && 0 <= x < TRUCK_CAP && 0 <= y < TRUCK_CAP && x != y
                && #[trigger] swapped(a, b, t, x, t, y);
        lemma_swap_same_load(a, b, t, x, t, y);
    } else {
        let (ta, x, tb, y) = choose|ta: int, x: int, tb: int, y: int|
            0 <= ta < N_TRUCKS && 0 <= tb < N_TRUCKS && ta != tb && 0 <= x < TRUCK_CAP && 0 <= y
                < TRUCK_CAP && x != y && #[trigger] swapped(a, b, ta, x, tb, y);
        lemma_swap_same_load(a, b, ta, x, tb, y);
    }
    assert(flat(b).to_multiset().subset_of(flat(a).to_multiset()));
    lemma_same_load_valid(a, b);
}

/// Plans that hold the same palets: a relation that is reflexive, symmetric
/// and transitive.
pub proof fn lemma_same_load_equivalence(a: Trucks, b: Trucks, c: Trucks)
    ensures
        same_load(a, a),
        same_load(a, b) ==> same_load(b, a),
        same_load(a, b) && same_load(b, c) ==> same_load(a, c),
{
}

/// A walk never costs less than nothing.
pub proof fn lemma_walk_nonneg(m: Costs, stops: Seq<u8>, seen: Set<int>, at: int)
    ensures
        walk(m, stops, seen, at) >= 0,
    decreases stops.len(),
{
    if stops.len() > 0 {
        let x = stops[0] - 1;
        lemma_walk_nonneg(m, stops.drop_first(), seen, at);
        lemma_walk_nonneg(m, stops.drop_first(), seen.insert(x), x);
    }
}

/// A walk through `stops` takes at most one leg per stop, and one back.
pub proof fn lemma_walk_bound(m: Costs, stops: Seq<u8>, seen: Set<int>, at: int)
    requires
        costs_fit(m),
        0 <= at < N,
        valid_palets(stops),
    ensures
        walk(m, stops, seen, at) <= (stops.len() + 1) * max_leg(),
    decreases stops.len(),
{
    if stops.len() > 0 {
        let x = stops[0] - 1;
        assert(valid_palet(stops[0]));
        assert(valid_palets(stops.drop_first())) by {
            assert forall|i: int| 0 <= i < stops.drop_first().len() implies valid_palet(
                #[trigger] stops.drop_first()[i],
            ) by {
                assert(stops.drop_first()[i] == stops[i + 1]);
            }
        }
        lemma_walk_bound(m, stops.drop_first(), seen, at);
        lemma_walk_bound(m, stops.drop_first(), seen.insert(x), x);
        assert(leg(m, at, x) <= max_leg());
        assert(max_leg() >= 0);
        assert(stops.drop_first().len() + 1 == stops.len());
        let l = stops.len() as int;
        let ml = max_leg();
        assert((l + 1) * ml == l * ml + ml) by (nonlinear_arith);
        assert(0 <= ml);
        assert(l * ml >= 0) by (nonlinear_arith) requires l >= 0, ml >= 0;
        if seen.contains(x) {
            assert(walk(m, stops, seen, at) == walk(m, stops.drop_first(), seen, at));
        } else {
            assert(walk(m, stops, seen, at) == leg(m, at, x) + walk(m, stops.drop_first(), seen.insert(x), x));
        }
    } else {
        assert(leg(m, at, 0) <= max_leg());
        let l = stops.len() as int;
        let ml = max_leg();
        assert((l + 1) * ml == ml) by (nonlinear_arith) requires l == 0;
    }
}

/// No plan of valid palets costs more than a `usize` holds, where the legs fit.
pub proof fn lemma_cost_fits(m: Costs, t: Trucks)
    requires
        costs_fit(m),
        valid_trucks(t),
    ensures
        0 <= trucks_cost(m, t) <= usize::MAX,
{
    lemma_cost_upto_bound(m, t, N_TRUCKS as int);
    assert(N_TRUCKS * (TRUCK_CAP + 1) * max_leg() <= usize::MAX) by (nonlinear_arith)
        requires
            max_leg() == usize::MAX as int / 180,
            N_TRUCKS * (TRUCK_CAP + 1) == 180,
    ;
}

proof fn lemma_cost_upto_bound(m: Costs, t: Trucks, n: int)
    requires
        costs_fit(m),
        valid_trucks(t),
        0 <= n <= N_TRUCKS,
    ensures
        0 <= cost_upto(m, t, n) <= n * (TRUCK_CAP + 1) * max_leg(),
    decreases n,
{
    if n > 0 {
        lemma_cost_upto_bound(m, t, n - 1);
        let row = t[n - 1]@;
        assert(valid_palets(row)) by {
            assert forall|i: int| 0 <= i < row.len() implies valid_palet(#[trigger] row[i]) by {
                assert(row[i] == t[n - 1][i]);
            }
        }
        lemma_walk_bound(m, row, set![0int], 0);
        lemma_walk_nonneg(m, row, set![0int], 0);
        assert(n * (TRUCK_CAP + 1) * max_leg() == (n - 1) * (TRUCK_CAP + 1) * max_leg() + (
        TRUCK_CAP + 1) * max_leg()) by (nonlinear_arith);
    }
}

/// Adding trucks never lowers the cost.
pub proof fn lemma_cost_upto_mono(m: Costs, t: Trucks, a: int, b: int)
    requires
        0 <= a <= b,
    ensures
        cost_upto(m, t, a) <= cost_upto(m, t, b),
    decreases b - a,
{
    if a < b {
        lemma_cost_upto_mono(m, t, a, b - 1);
        lemma_walk_nonneg(m, t[b - 1]@, set![0int], 0);
    }
}


/// `b` is `a` with slot `j` of truck `i` set to `v`.
pub open spec fn set_slot(a: Trucks, b: Trucks, i: int, j: int, v: u8) -> bool {
    forall|x: int, y: int|
        0 <= x < N_TRUCKS && 0 <= y < TRUCK_CAP ==> #[trigger] b[x][y] == if x == i && y == j {
            v
        } else {
            a[x][y]
        }
}

pub proof fn lemma_flat_set(a: Trucks, b: Trucks, i: int, j: int, v: u8)
    requires
        0 <= i < N_TRUCKS,
        0 <= j < TRUCK_CAP,
        set_slot(a, b, i, j, v),
    ensures
        flat(b) =~= flat(a).update(slot(i, j), v),
        flat(a)[slot(i, j)] == a[i][j],
{
    lemma_slot(i, j);
    assert forall|k: int| 0 <= k < N_TRUCKS * TRUCK_CAP implies #[trigger] flat(b)[k] == flat(
        a,
    ).update(slot(i, j), v)[k] by {
        lemma_slot_of(k);
        if k != slot(i, j) {
            assert(!(k / TRUCK_CAP as int == i && k % TRUCK_CAP as int == j));
        }
    }
}

/// Sum of the first `n` entries of `s`.
pub open spec fn sum_upto(s: Seq<usize>, n: int) -> int
    decreases n,
{
    if n <= 0 {
        0
    } else {
        sum_upto(s, n - 1) + s[n - 1]
    }
}

/// Where no truck of the first `n` has room, they hold at least `n` full loads.
pub proof fn lemma_full_sum(lens: Seq<usize>, n: int)
    requires
        0 <= n <= lens.len(),
        forall|t: int| 0 <= t < n ==> lens[t] >= TRUCK_CAP,
    ensures
        sum_upto(lens, n) >= n * TRUCK_CAP,
    decreases n,
{
    if n > 0 {
        lemma_full_sum(lens, n - 1);
    }
}

pub proof fn lemma_sum_update(lens: Seq<usize>, n: int, t: int, v: usize)
    requires
        0 <= t < n <= lens.len(),
    ensures
        sum_upto(lens.update(t, v), n) == sum_upto(lens, n) - lens[t] + v,
    decreases n,
{
    if n - 1 != t {
        lemma_sum_update(lens, n - 1, t, v);
    } else {
        lemma_sum_same(lens, lens.update(t, v), n - 1);
    }
}

pub proof fn lemma_sum_same(a: Seq<usize>, b: Seq<usize>, n: int)
    requires
        0 <= n <= a.len(),
        n <= b.len(),
        forall|i: int| 0 <= i < n ==> a[i] == b[i],
    ensures
        sum_upto(a, n) == sum_upto(b, n),
    decreases n,
{
    if n > 0 {
        lemma_sum_same(a, b, n - 1);
    }
}


/// Every palet of `b` is a palet of `a`: where `a` holds only valid palets,
/// so does `b`.
pub proof fn lemma_same_load_valid(a: Trucks, b: Trucks)
    requires
        flat(b).to_multiset().subset_of(flat(a).to_multiset()),
    ensures
        valid_trucks(a) ==> valid_trucks(b),
{
    if valid_trucks(a) {
        assert forall|i: int, j: int| 0 <= i < N_TRUCKS && 0 <= j < TRUCK_CAP implies valid_palet(
            #[trigger] b[i][j],
        ) by {
            lemma_slot(i, j);
            let v = b[i][j];
            assert(flat(b)[slot(i, j)] == v);
            vstd::seq_lib::to_multiset_contains(flat(b), v);
            assert(flat(b).contains(v));
            vstd::seq_lib::to_multiset_contains(flat(a), v);
            assert(flat(a).to_multiset().count(v) > 0);
            let k = choose|k: int| 0 <= k < flat(a).len() && flat(a)[k] == v;
            lemma_slot_of(k);
        }
    }
}

/// A plan drawn from palets that are all valid holds only valid palets.
pub proof fn lemma_drawn_valid(t: Trucks, ps: Seq<u8>)
    requires
        flat(t).to_multiset().subset_of(ps.to_multiset()),
        valid_palets(ps),
    ensures
        valid_trucks(t),
{
    assert forall|i: int, j: int| 0 <= i < N_TRUCKS && 0 <= j < TRUCK_CAP implies valid_palet(
        #[trigger] t[i][j],
    ) by {
        lemma_slot(i, j);
        let v = t[i][j];
        assert(flat(t)[slot(i, j)] == v);
        vstd::seq_lib::to_multiset_contains(flat(t), v);
        assert(flat(t).contains(v));
        vstd::seq_lib::to_multiset_contains(ps, v);
        assert(ps.to_multiset().count(v) > 0);
        let k = choose|k: int| 0 <= k < ps.len() && ps[k] == v;
    }
}

/// A plan loaded with all `N_TRUCKS * TRUCK_CAP` palets of `ps` holds exactly
/// them.
pub proof fn lemma_loaded_full(t: Trucks, ps: Seq<u8>)
    requires
        loaded_with(t, ps),
        ps.len() == N_TRUCKS * TRUCK_CAP,
    ensures
        flat(t).to_multiset() == ps.to_multiset(),
{
    assert(flat(t).to_multiset() =~= ps.to_multiset());
}


/// Index `a` comes before index `b` when its key is smaller, or equal and `a`
/// is the smaller index.
pub open spec fn key_before(keys: Seq<usize>, a: int, b: int) -> bool {
    keys[a] < keys[b] || (keys[a] == keys[b] && a < b)
}

/// `order` lists the indices of `keys` by increasing key, and indices of equal
/// keys by increasing index: the order in which a stable sort by key puts the
/// items that the keys belong to.
pub open spec fn stable_order_of(keys: Seq<usize>, order: Seq<usize>) -> bool {
    &&& order.len() == keys.len()
    &&& forall|i: int| 0 <= i < order.len() ==> #[trigger] order[i] < keys.len()
    &&& forall|i: int, j: int|
        0 <= i < j < order.len() ==> key_before(keys, #[trigger] order[i] as int, #[trigger] order[j] as int)
}

/// How many palets of `ps` are bound for each city (entry `c` for city
/// `c + 1`).
pub open spec fn city_counts(ps: Seq<u8>) -> Seq<usize> {
    Seq::new(N as nat, |c: int| ps.to_multiset().count((c + 1) as u8) as usize)
}

/// The truck loads of a plan: slot `j` of truck `i` holds `loads[i][j]` below
/// the length of that load, and is empty (0) above it.
pub open spec fn plan_matches(t: Trucks, loads: Seq<Seq<u8>>) -> bool {
    &&& loads.len() == N_TRUCKS
    &&& forall|i: int| 0 <= i < N_TRUCKS ==> #[trigger] loads[i].len() <= TRUCK_CAP
    &&& forall|i: int, j: int|
        0 <= i < N_TRUCKS && 0 <= j < TRUCK_CAP ==> #[trigger] t[i][j] == if j < loads[i].len() {
            loads[i][j]
        } else {
            0
        }
}

/// Palet `k` of `ps` went to the next free slot of truck `choice[k]`, which
/// had room, turning the loads `loads[k]` into `loads[k + 1]`.
pub open spec fn deal_step(ps: Seq<u8>, choice: Seq<int>, loads: Seq<Seq<Seq<u8>>>, k: int) -> bool {
    &&& 0 <= choice[k] < N_TRUCKS
    &&& loads[k][choice[k]].len() < TRUCK_CAP
    &&& loads[k + 1] == loads[k].update(choice[k], loads[k][choice[k]].push(ps[k]))
}

/// `sol` is what dealing the palets of `ps` in order makes, from empty
/// trucks, each palet to the next free slot of a truck with room: truck
/// `choice[k]` for palet `k`.
pub open spec fn dealt(ps: Seq<u8>, sol: Trucks, choice: Seq<int>, loads: Seq<Seq<Seq<u8>>>) -> bool {
    &&& choice.len() == ps.len()
    &&& loads.len() == ps.len() + 1
    &&& loads[0] == no_loads()
    &&& forall|k: int| 0 <= k < ps.len() ==> #[trigger] deal_step(ps, choice, loads, k)
    &&& plan_matches(sol, loads[ps.len() as int])
}

/// `sol` is what dealing the palets of `ps` in order makes, for some choice
/// of trucks (`dealt`).
pub open spec fn is_dealt(ps: Seq<u8>, sol: Trucks) -> bool {
    exists|choice: Seq<int>, loads: Seq<Seq<Seq<u8>>>| #[trigger] dealt(ps, sol, choice, loads)
}

/// Dealing palet `k` of `ps` to the next free slot of truck `t`, which has
/// room, extends a deal of the first `k` palets to one of the first `k + 1`.
pub proof fn lemma_deal_next(
    ps: Seq<u8>,
    choice: Seq<int>,
    loads: Seq<Seq<Seq<u8>>>,
    k: int,
    t: int,
    old_sol: Trucks,
    new_sol: Trucks,
)
    requires
        0 <= k < ps.len(),
        0 <= t < N_TRUCKS,
        choice.len() == k,
        loads.len() == k + 1,
        forall|q: int| 0 <= q < k ==> #[trigger] deal_step(ps, choice, loads, q),
        plan_matches(old_sol, loads[k]),
        loads[k][t].len() < TRUCK_CAP,
        set_slot(old_sol, new_sol, t, loads[k][t].len() as int, ps[k]),
    ensures
        ({
            let choice2 = choice.push(t);
            let loads2 = loads.push(loads[k].update(t, loads[k][t].push(ps[k])));
            &&& forall|q: int| 0 <= q < k + 1 ==> #[trigger] deal_step(ps, choice2, loads2, q)
            &&& plan_matches(new_sol, loads2[k + 1])
            &&& loads2[0] == loads[0]
            &&& forall|a: int| 0 <= a < N_TRUCKS ==> #[trigger] loads2[k + 1][a].len() == loads[k][a].len() + if a == t { 1int } else { 0int }
        }),
{
    let cur = loads[k];
    let next = cur.update(t, cur[t].push(ps[k]));
    let choice2 = choice.push(t);
    let loads2 = loads.push(next);
    assert(deal_step(ps, choice2, loads2, k));
    assert forall|q: int| 0 <= q < k + 1 implies #[trigger] deal_step(ps, choice2, loads2, q) by {
        if q < k {
            assert(deal_step(ps, choice, loads, q));
            assert(loads2[q] == loads[q] && loads2[q + 1] == loads[q + 1] && choice2[q] == choice[q]);
        }
    }
    assert forall|a: int, j: int| 0 <= a < N_TRUCKS && 0 <= j < TRUCK_CAP implies #[trigger] new_sol[a][j] == if j < next[a].len() {
        next[a][j]
    } else {
        0
    } by {
        if a == t {
            assert(old_sol[a][j] == if j < cur[a].len() { cur[a][j] } else { 0 });
        } else {
            assert(new_sol[a][j] == old_sol[a][j]);
        }
    }
}

/// Cost of putting palet `pal` on a truck that carries `load`: the leg from
/// the city of its last palet, or from the depot when it is empty.
pub open spec fn append_cost(m: Costs, load: Seq<u8>, pal: u8) -> int {
    if load.len() == 0 {
        leg(m, 0, pal - 1)
    } else {
        leg(m, load.last() - 1, pal - 1)
    }
}

/// The truck the greedy rule picks for `pal` among trucks `i..N_TRUCKS`, given
/// the best truck `bt` found so far at cost `bc`: the first truck with room
/// whose cost is strictly lower than every earlier one.
pub open spec fn greedy_choice(m: Costs, loads: Seq<Seq<u8>>, pal: u8, i: int, bt: int, bc: int) -> int
    decreases N_TRUCKS - i,
{
    if i >= N_TRUCKS {
        bt
    } else if loads[i].len() < TRUCK_CAP && append_cost(m, loads[i], pal) < bc {
        greedy_choice(m, loads, pal, i + 1, i, append_cost(m, loads[i], pal))
    } else {
        greedy_choice(m, loads, pal, i + 1, bt, bc)
    }
}

/// The empty loads of every truck.
pub open spec fn no_loads() -> Seq<Seq<u8>> {
    Seq::new(N_TRUCKS as nat, |i: int| Seq::<u8>::empty())
}

/// Loads after the greedy rule has placed the first `k` palets of `ps`, each
/// on the truck with room that is cheapest to reach from its last palet.
pub open spec fn greedy_loads(m: Costs, ps: Seq<u8>, k: int) -> Seq<Seq<u8>>
    decreases k,
{
    if k <= 0 {
        no_loads()
    } else {
        let prev = greedy_loads(m, ps, k - 1);
        let t = greedy_choice(m, prev, ps[k - 1], 0, 0, usize::MAX as int);
        prev.update(t, prev[t].push(ps[k - 1]))
    }
}


/// A leg that fits is below `usize::MAX`.
pub proof fn lemma_max_leg()
    ensures
        0 <= max_leg() < usize::MAX,
{
    assert(usize::MAX as int / 180 < usize::MAX) by (nonlinear_arith)
        requires
            usize::MAX >= 1,
    ;
}


/// `s` lists each of `0..n` once.
pub open spec fn is_perm(s: Seq<u8>, n: int) -> bool {
    &&& s.len() == n
    &&& forall|i: int| 0 <= i < s.len() ==> (#[trigger] s[i]) < n
    &&& forall|i: int, j: int| 0 <= i < j < s.len() ==> #[trigger] s[i] != #[trigger] s[j]
}

/// Values of `s` are distinct.
pub open spec fn distinct(s: Seq<u8>) -> bool {
    forall|i: int, j: int| 0 <= i < s.len() && 0 <= j < s.len() && i != j ==> #[trigger] s[i] != #[trigger] s[j]
}

/// `n` distinct values below `n` take every value below `n`.
pub proof fn lemma_perm_onto(s: Seq<u8>, n: int, v: int)
    requires
        is_perm(s, n),
        0 <= v < n,
    ensures
        exists|i: int| 0 <= i < s.len() && s[i] == v,
{
    broadcast use {vstd::set::group_set_axioms, vstd::seq_lib::seq_to_set_is_finite};

    let t = s.map_values(|x: u8| x as int);
    assert(t.no_duplicates()) by {
        assert forall|i: int, j: int| 0 <= i < t.len() && 0 <= j < t.len() && i != j implies t[i] != t[j] by {
            if i < j {
                assert(s[i] != s[j]);
            } else {
                assert(s[j] != s[i]);
            }
        }
    }
    t.unique_seq_to_set();
    if !(exists|i: int| 0 <= i < s.len() && s[i] == v) {
        let r = vstd::set_lib::set_int_range(0, n).remove(v);
        vstd::set_lib::lemma_int_range(0, n);
        assert(t.to_set().subset_of(r)) by {
            assert forall|x: int| t.to_set().contains(x) implies r.contains(x) by {
                let i = choose|i: int| 0 <= i < t.len() && t[i] == x;
                assert(s[i] < n);
                assert(s[i] != v);
            }
        }
        vstd::set_lib::lemma_len_subset(t.to_set(), r);
        assert(false);
    }
}

/// Where `distinct(s)`, `is_perm` asks only for the length and the bound.
pub proof fn lemma_distinct_perm(s: Seq<u8>, n: int)
    requires
        distinct(s),
        s.len() == n,
        forall|i: int| 0 <= i < s.len() ==> (#[trigger] s[i]) < n,
    ensures
        is_perm(s, n),
{
}

/// The cities of the palets that `ids` names (`dests[id]` for each id).
pub open spec fn stops_of(ids: Seq<u8>, dests: Seq<u8>) -> Seq<u8> {
    ids.map_values(|id: u8| dests[id as int])
}

/// Cost of the trucks that carry `stops` in runs of `TRUCK_CAP` (the last run
/// may be shorter).
pub open spec fn chunked_cost(m: Costs, stops: Seq<u8>) -> int
    decreases stops.len(),
{
    if stops.len() == 0 {
        0
    } else if stops.len() <= TRUCK_CAP {
        route_cost(m, stops)
    } else {
        route_cost(m, stops.take(TRUCK_CAP as int)) + chunked_cost(m, stops.skip(TRUCK_CAP as int))
    }
}

/// The matrix holds every cell that the trucks carrying `stops` in runs of
/// `TRUCK_CAP` read.
pub open spec fn chunked_cells(m: Costs, stops: Seq<u8>) -> bool
    decreases stops.len(),
{
    if stops.len() == 0 {
        true
    } else if stops.len() <= TRUCK_CAP {
        route_cells(m, stops)
    } else {
        route_cells(m, stops.take(TRUCK_CAP as int)) && chunked_cells(m, stops.skip(TRUCK_CAP as int))
    }
}

/// A matrix that covers every city holds the cells of any run of trucks over
/// valid palets.
pub proof fn lemma_chunked_cells(m: Costs, stops: Seq<u8>)
    requires
        costs_ok(m),
        forall|j: int| 0 <= j < stops.len() ==> valid_palet(#[trigger] stops[j]),
    ensures
        chunked_cells(m, stops),
    decreases stops.len(),
{
    if stops.len() > 0 {
        if stops.len() <= TRUCK_CAP {
            lemma_walk_cells(m, stops, set![0int], 0);
        } else {
            let a = stops.take(TRUCK_CAP as int);
            let b = stops.skip(TRUCK_CAP as int);
            assert forall|j: int| 0 <= j < a.len() implies valid_palet(#[trigger] a[j]) by {
                assert(a[j] == stops[j]);
            }
            assert forall|j: int| 0 <= j < b.len() implies valid_palet(#[trigger] b[j]) by {
                assert(b[j] == stops[j + TRUCK_CAP]);
            }
            lemma_walk_cells(m, a, set![0int], 0);
            lemma_chunked_cells(m, b);
        }
    }
}

/// Cost of the plan that a chromosome encodes: its palet ids in runs of
/// `TRUCK_CAP`, one run per truck, each palet bound for `dests[id]`.
pub open spec fn chrom_cost(m: Costs, dests: Seq<u8>, ids: Seq<u8>) -> int {
    chunked_cost(m, stops_of(ids, dests))
}

pub proof fn lemma_chunked_nonneg(m: Costs, stops: Seq<u8>)
    ensures
        chunked_cost(m, stops) >= 0,
    decreases stops.len(),
{
    if stops.len() > 0 {
        if stops.len() <= TRUCK_CAP {
            lemma_walk_nonneg(m, stops, set![0int], 0);
        } else {
            lemma_walk_nonneg(m, stops.take(TRUCK_CAP as int), set![0int], 0);
            lemma_chunked_nonneg(m, stops.skip(TRUCK_CAP as int));
        }
    }
}

/// Every chunk costs at most one leg per stop and one back.
pub proof fn lemma_chunked_bound(m: Costs, stops: Seq<u8>, k: int)
    requires
        costs_fit(m),
        valid_palets(stops),
        stops.len() <= k * TRUCK_CAP,
        0 <= k,
    ensures
        chunked_cost(m, stops) <= (stops.len() + k) * max_leg(),
    decreases stops.len(),
{
    lemma_max_leg();
    let ml = max_leg();
    if stops.len() == 0 {
        assert((stops.len() + k) * ml >= 0) by (nonlinear_arith) requires k >= 0, ml >= 0, stops.len() >= 0;
    } else if stops.len() <= TRUCK_CAP {
        lemma_walk_bound(m, stops, set![0int], 0);
        assert(k >= 1) by (nonlinear_arith) requires stops.len() <= k * TRUCK_CAP, stops.len() > 0, k >= 0;
        assert((stops.len() + 1) * ml <= (stops.len() + k) * ml) by (nonlinear_arith) requires k >= 1, ml >= 0;
    } else {
        let first = stops.take(TRUCK_CAP as int);
        let rest = stops.skip(TRUCK_CAP as int);
        assert(valid_palets(first)) by {
            assert forall|i: int| 0 <= i < first.len() implies valid_palet(#[trigger] first[i]) by {
                assert(first[i] == stops[i]);
            }
        }
        assert(valid_palets(rest)) by {
            assert forall|i: int| 0 <= i < rest.len() implies valid_palet(#[trigger] rest[i]) by {
                assert(rest[i] == stops[i + TRUCK_CAP]);
            }
        }
        assert(k >= 2) by (nonlinear_arith) requires stops.len() <= k * TRUCK_CAP, stops.len() > TRUCK_CAP, k >= 0;
        assert(rest.len() <= (k - 1) * TRUCK_CAP) by (nonlinear_arith)
            requires rest.len() == stops.len() - TRUCK_CAP, stops.len() <= k * TRUCK_CAP;
        lemma_walk_bound(m, first, set![0int], 0);
        lemma_chunked_bound(m, rest, k - 1);
        assert((first.len() + 1) * ml + (rest.len() + k - 1) * ml == (stops.len() + k) * ml) by (nonlinear_arith)
            requires first.len() + rest.len() == stops.len();
    }
}


/// The values below `n`.
pub open spec fn below(n: int) -> Set<u8> {
    Set::new(|v: u8| (v as int) < n)
}

pub proof fn lemma_below_len(n: int)
    requires
        0 <= n <= 256,
    ensures
        below(n).finite(),
        below(n).len() == n,
    decreases n,
{
    broadcast use vstd::set::group_set_axioms;

    if n == 0 {
        assert(below(0) =~= Set::<u8>::empty());
    } else {
        lemma_below_len(n - 1);
        assert(below(n) =~= below(n - 1).insert((n - 1) as u8));
    }
}

/// Distinct values have as many elements in their set as in their sequence.
pub proof fn lemma_distinct_set_len(s: Seq<u8>)
    requires
        distinct(s),
    ensures
        s.to_set().finite(),
        s.to_set().len() == s.len(),
{
    broadcast use vstd::seq_lib::seq_to_set_is_finite;

    assert(s.no_duplicates());
    s.unique_seq_to_set();
}

/// Two distinct lists without common values that together take every value
/// below `n` have `n` elements between them.
pub proof fn lemma_complement_len(a: Seq<u8>, b: Seq<u8>, n: int)
    requires
        0 <= n <= 256,
        distinct(a),
        distinct(b),
        forall|i: int| 0 <= i < a.len() ==> (#[trigger] a[i] as int) < n,
        forall|i: int| 0 <= i < b.len() ==> (#[trigger] b[i] as int) < n,
        forall|i: int, j: int| 0 <= i < a.len() && 0 <= j < b.len() ==> #[trigger] a[i] != #[trigger] b[j],
        forall|v: u8| (v as int) < n ==> a.contains(v) || b.contains(v),
    ensures
        a.len() + b.len() == n,
{
    broadcast use {vstd::set::group_set_axioms, vstd::seq_lib::seq_to_set_is_finite};

    lemma_distinct_set_len(a);
    lemma_distinct_set_len(b);
    lemma_below_len(n);
    assert(a.to_set() + b.to_set() =~= below(n));
    assert(a.to_set().disjoint(b.to_set()));
    vstd::set_lib::lemma_set_disjoint_lens(a.to_set(), b.to_set());
}

/// A distinct list that holds every value below `n`, and only such values,
/// has `n` elements.
pub proof fn lemma_full_len(a: Seq<u8>, n: int)
    requires
        0 <= n <= 256,
        distinct(a),
        forall|i: int| 0 <= i < a.len() ==> (#[trigger] a[i] as int) < n,
        forall|v: u8| (v as int) < n ==> a.contains(v),
    ensures
        a.len() == n,
{
    lemma_complement_len(a, Seq::<u8>::empty(), n);
}

/// `s` with the values at `a` and `b` exchanged.
pub open spec fn swap_seq(s: Seq<u8>, a: int, b: int) -> Seq<u8> {
    s.update(a, s[b]).update(b, s[a])
}

/// `s` with the run of positions `lo..=hi` reversed.
pub open spec fn reverse_between(s: Seq<u8>, lo: int, hi: int) -> Seq<u8> {
    Seq::new(s.len(), |i: int| if lo <= i <= hi { s[lo + hi - i] } else { s[i] })
}

/// The child of an order crossover: `p1`'s run `start..end` kept in place,
/// the other positions filled, in order, with the values of `p2` that the run
/// does not hold.
pub open spec fn ox_child(p1: Seq<u8>, p2: Seq<u8>, start: int, end: int) -> Seq<u8> {
    let seg = p1.subrange(start, end);
    let rest = p2.filter(|x: u8| !seg.contains(x));
    rest.take(start) + seg + rest.skip(start)
}


/// A stable order lists every index.
pub proof fn lemma_stable_order_onto(keys: Seq<usize>, order: Seq<usize>, v: int)
    requires
        stable_order_of(keys, order),
        0 <= v < keys.len(),
    ensures
        exists|q: int| 0 <= q < order.len() && order[q] == v,
{
    broadcast use {vstd::set::group_set_axioms, vstd::seq_lib::seq_to_set_is_finite};

    let n = keys.len() as int;
    let t = order.map_values(|x: usize| x as int);
    assert(t.no_duplicates()) by {
        assert forall|i: int, j: int| 0 <= i < t.len() && 0 <= j < t.len() && i != j implies t[i] != t[j] by {
            if i < j {
                assert(key_before(keys, order[i] as int, order[j] as int));
            } else {
                assert(key_before(keys, order[j] as int, order[i] as int));
            }
        }
    }
    t.unique_seq_to_set();
    if !(exists|q: int| 0 <= q < order.len() && order[q] == v) {
        let r = vstd::set_lib::set_int_range(0, n).remove(v);
        vstd::set_lib::lemma_int_range(0, n);
        assert(t.to_set().subset_of(r)) by {
            assert forall|x: int| t.to_set().contains(x) implies r.contains(x) by {
                let i = choose|i: int| 0 <= i < t.len() && t[i] == x;
                assert(order[i] < n);
                assert(order[i] != v);
            }
        }
        vstd::set_lib::lemma_len_subset(t.to_set(), r);
        assert(false);
    }
}

pub proof fn lemma_zeros_count(v: u8)
    ensures
        Seq::new((N_TRUCKS * TRUCK_CAP) as nat, |i: int| 0u8).to_multiset().count(v) == if v == 0 {
            (N_TRUCKS * TRUCK_CAP) as int
        } else {
            0
        },
{
    lemma_const_seq_count(v, 0u8, (N_TRUCKS * TRUCK_CAP) as nat);
}

pub proof fn lemma_const_seq_count(v: u8, c: u8, n: nat)
    ensures
        Seq::new(n, |i: int| c).to_multiset().count(v) == if v == c {
            n as int
        } else {
            0
        },
    decreases n,
{
    if n > 0 {
        lemma_const_seq_count(v, c, (n - 1) as nat);
        assert(Seq::new(n, |i: int| c) =~= Seq::new((n - 1) as nat, |i: int| c).push(c));
        vstd::seq_lib::to_multiset_build(Seq::new((n - 1) as nat, |i: int| c), c);
    } else {
        assert(Seq::new(n, |i: int| c) =~= Seq::<u8>::empty());
        assert(Seq::new(n, |i: int| c).to_multiset() =~= vstd::multiset::Multiset::empty());
    }
}

pub proof fn lemma_sum_zero(s: Seq<usize>, n: int)
    requires
        0 <= n <= s.len(),
        forall|i: int| 0 <= i < n ==> s[i] == 0,
    ensures
        sum_upto(s, n) == 0,
    decreases n,
{
    if n > 0 {
        lemma_sum_zero(s, n - 1);
    }
}


/// No entry of `s` below `n` exceeds the sum of the first `n`.
pub proof fn lemma_entry_le_sum(s: Seq<usize>, n: int, i: int)
    requires
        0 <= i < n <= s.len(),
    ensures
        s[i] <= sum_upto(s, n),
    decreases n,
{
    lemma_sum_nonneg(s, n - 1);
    if i < n - 1 {
        lemma_entry_le_sum(s, n - 1, i);
    }
}

pub proof fn lemma_sum_nonneg(s: Seq<usize>, n: int)
    requires
        0 <= n <= s.len(),
    ensures
        sum_upto(s, n) >= 0,
    decreases n,
{
    if n > 0 {
        lemma_sum_nonneg(s, n - 1);
    }
}

/// A valid palet list holds neither empty slots nor palets bound beyond the
/// last city.
pub proof fn lemma_valid_counts(ps: Seq<u8>, v: u8)
    requires
        valid_palets(ps),
        !valid_palet(v),
    ensures
        ps.to_multiset().count(v) == 0,
{
    vstd::seq_lib::to_multiset_contains(ps, v);
    if ps.to_multiset().count(v) > 0 {
        assert(ps.contains(v));
        let k = choose|k: int| 0 <= k < ps.len() && ps[k] == v;
        assert(valid_palet(ps[k]));
    }
}


/// Where the legs fit, no plan of valid palets costs `usize::MAX` itself.
pub proof fn lemma_cost_strictly_fits(m: Costs, t: Trucks)
    requires
        costs_fit(m),
        valid_trucks(t),
    ensures
        trucks_cost(m, t) < usize::MAX,
{
    lemma_cost_upto_bound(m, t, N_TRUCKS as int);
    assert(N_TRUCKS * (TRUCK_CAP + 1) * max_leg() < usize::MAX) by (nonlinear_arith)
        requires
            max_leg() == usize::MAX as int / 180,
            N_TRUCKS * (TRUCK_CAP + 1) == 180,
            usize::MAX >= 1000,
    ;
}


/// Where every truck holds at most `TRUCK_CAP` and one holds fewer, the
/// trucks hold fewer than `n` full loads.
pub proof fn lemma_open_sum_lt(lens: Seq<usize>, n: int, a: int)
    requires
        0 <= a < n <= lens.len(),
        forall|t: int| 0 <= t < n ==> #[trigger] lens[t] <= TRUCK_CAP,
        lens[a] < TRUCK_CAP,
    ensures
        sum_upto(lens, n) < n * TRUCK_CAP,
    decreases n,
{
    if n - 1 == a {
        lemma_sum_le_full(lens, n - 1);
    } else {
        lemma_open_sum_lt(lens, n - 1, a);
    }
}

pub proof fn lemma_sum_le_full(lens: Seq<usize>, n: int)
    requires
        0 <= n <= lens.len(),
        forall|t: int| 0 <= t < n ==> #[trigger] lens[t] <= TRUCK_CAP,
    ensures
        sum_upto(lens, n) <= n * TRUCK_CAP,
    decreases n,
{
    if n > 0 {
        lemma_sum_le_full(lens, n - 1);
    }
}

/// The value below `m` that a draw picks.
pub open spec fn drawn_below(x: u64, m: usize) -> int {
    ((x as usize) % m) as int
}

/// The draws `d` that a redraw took from the value `first`, and the value
/// `r` it ended with: where `first` is not `bad`, nothing is drawn and `r` is
/// `first`; otherwise values below `m` are drawn until one is not `bad`,
/// which is `r`. (Only after `usize::MAX` bad draws in a row does the redraw
/// give up; its value is then not stated here.)
pub open spec fn redrawn(first: int, d: Seq<u64>, m: usize, bad: spec_fn(int) -> bool, r: int) -> bool {
    if !bad(first) {
        d.len() == 0 && r == first
    } else {
        &&& d.len() >= 1
        &&& forall|i: int| 0 <= i < d.len() - 1 ==> bad(drawn_below(#[trigger] d[i], m))
        &&& if !bad(drawn_below(d.last(), m)) {
            r == drawn_below(d.last(), m)
        } else {
            d.len() == usize::MAX
        }
    }
}

/// The draws after `before` that lead to `after`.
pub open spec fn drawn_since(before: Seq<u64>, after: Seq<u64>) -> Seq<u64> {
    after.skip(before.len() as int)
}

/// Runs of draws of at least `c` each, concatenated, make at least `c`
/// draws per run.
pub proof fn lemma_flatten_len_at_least(ds: Seq<Seq<u64>>, c: int)
    requires
        0 <= c,
        forall|k: int| 0 <= k < ds.len() ==> (#[trigger] ds[k]).len() >= c,
    ensures
        ds.flatten().len() >= c * ds.len(),
    decreases ds.len(),
{
    if ds.len() > 0 {
        let init = ds.drop_last();
        assert forall|k: int| 0 <= k < init.len() implies (#[trigger] init[k]).len() >= c by {
            assert(init[k] == ds[k]);
        }
        lemma_flatten_len_at_least(init, c);
        init.lemma_flatten_push(ds.last());
        assert(init.push(ds.last()) =~= ds);
        assert(c * ds.len() == c * init.len() + c) by (nonlinear_arith)
            requires
                ds.len() == init.len() + 1,
        ;
    }
}

/// Dealing the palets of `ps` in order with the draws `d`: each draw picks a
/// truck, which takes the next palet where a palet is left and the truck has
/// room; otherwise the draw places nothing. Gives the loads and how many
/// palets were dealt.
pub open spec fn deal_draws(ps: Seq<u8>, d: Seq<u64>) -> (Seq<Seq<u8>>, int)
    decreases d.len(),
{
    if d.len() == 0 {
        (no_loads(), 0)
    } else {
        let prev = deal_draws(ps, d.drop_last());
        let t = drawn_below(d.last(), N_TRUCKS);
        if prev.1 < ps.len() && prev.0[t].len() < TRUCK_CAP {
            (prev.0.update(t, prev.0[t].push(ps[prev.1])), prev.1 + 1)
        } else {
            prev
        }
    }
}

/// Draws that each pick a truck with no room place nothing.
pub proof fn lemma_deal_skips(ps: Seq<u8>, pre: Seq<u64>, seg: Seq<u64>)
    requires
        forall|i: int| 0 <= i < seg.len() ==> deal_draws(ps, pre).0[drawn_below(#[trigger] seg[i], N_TRUCKS)].len() >= TRUCK_CAP,
    ensures
        deal_draws(ps, pre + seg) == deal_draws(ps, pre),
    decreases seg.len(),
{
    if seg.len() > 0 {
        let init = seg.drop_last();
        assert forall|i: int| 0 <= i < init.len() implies deal_draws(ps, pre).0[drawn_below(#[trigger] init[i], N_TRUCKS)].len() >= TRUCK_CAP by {
            assert(init[i] == seg[i]);
        }
        lemma_deal_skips(ps, pre, init);
        assert((pre + seg).drop_last() =~= pre + init);
        assert((pre + seg).last() == seg[seg.len() - 1]);
    } else {
        assert(pre + seg =~= pre);
    }
}

} // verus!
