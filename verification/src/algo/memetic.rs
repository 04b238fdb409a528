//! Memetic search: the genetic search with order crossover, no mutation, and
//! a local search of the new generation every `OPT_CD` generations.
//!
//! Each piece of a generation is a function here; handing pairs and local
//! searches out to threads is left to the caller.

use super::genetic::{
    first_population, ga_greedy_order, tourney, drawn_index, drawn_within, ox_draws, CROSS_STEPS, kept_cost, costs_of, lemma_chrom_cost_fits, lemma_sorted_by_cost_is_sorted, lemma_sorted_first_is_cheapest,
    lemma_swap_perm, min_cost, one_swap, priced, sort_by_cost,
    sorted_by_cost, tournament, valid_population, Cromosoma, CrossType, N_CROMOSOMA, N_ELITISM,
    PAIRS,
};
use super::model::{
    chrom_cost, costs_fit, is_perm, stable_order_of, drawn_below, drawn_since, redrawn, swap_seq, valid_palets,
};
use super::{Costs, Palets, N, N_PALETS, N_TRUCKS, TRUCK_CAP};
use crate::rng::RNG;
use vstd::prelude::*;

verus! {

/// Number of evaluations of one local search.
pub const EVALS: usize = 50 * N;

/// Whether a generation is bred on one thread.
pub const ST: bool = false;

/// Number of generations.
pub const N_GEN: usize = 100 * N;

/// Number of chromosomes, from the cheapest, that the local search may improve.
pub const LS_N: usize = N_CROMOSOMA;

/// The local search runs every `OPT_CD` generations.
pub const OPT_CD: usize = 10;

/// `c1` and `c2` were bred from `pop` with the draws `d`: the first parent
/// wins the tournament between the members that the first and second draws
/// pick, the second the one between those that the fourth and sixth pick (the
/// third and fifth are drawn and left unused); where the seventh is within
/// `CROSS_STEPS`, the children are the parents' by order crossover with the
/// cut points that the two draws after it pick, else the parents copied and
/// `d` ends there.
pub open spec fn bred_from(pop: Seq<Cromosoma>, d: Seq<u64>, c1: Seq<u8>, c2: Seq<u8>) -> bool {
    let p1 = tourney(pop, drawn_index(d[0]), drawn_index(d[1]));
    let p2 = tourney(pop, drawn_index(d[3]), drawn_index(d[5]));
    &&& d.len() >= 7
    &&& if drawn_within(d[6], CROSS_STEPS) {
        ox_draws(d.take(7), d, pop[p1].palets@, pop[p2].palets@, c1, c2)
    } else {
        d.len() == 7 && c1 == pop[p1].palets@ && c2 == pop[p2].palets@
    }
}

/// Two chromosomes with the same ids and the same cost.
pub open spec fn same_chrom(a: Cromosoma, b: Cromosoma) -> bool {
    a.palets@ == b.palets@ && a.cost == b.cost
}

/// `c` is in the cache of chromosomes already improved.
pub open spec fn in_cache(cache: Seq<Cromosoma>, c: Cromosoma) -> bool {
    exists|j: int| 0 <= j < cache.len() && #[trigger] same_chrom(cache[j], c)
}

/// Indices below `n` whose chromosome is not in the cache, in increasing order.
pub open spec fn uncached(ng: Seq<Cromosoma>, cache: Seq<Cromosoma>, n: int) -> Seq<usize>
    decreases n,
{
    if n <= 0 {
        Seq::empty()
    } else if in_cache(cache, ng[n - 1]) {
        uncached(ng, cache, n - 1)
    } else {
        uncached(ng, cache, n - 1).push((n - 1) as usize)
    }
}

/// Among the first `n` results of local searches, one for position `j` is
/// cheaper than the chromosome there.
pub open spec fn improved_upto(results: Seq<(Cromosoma, usize)>, ng: Seq<Cromosoma>, j: int, n: int) -> bool {
    exists|k: int| 0 <= k < n && #[trigger] results[k].1 == j && results[k].0.cost < ng[j].cost
}

/// Positions of the results are distinct and within `ng`.
pub open spec fn results_ok(results: Seq<(Cromosoma, usize)>, ng: Seq<Cromosoma>) -> bool {
    &&& forall|k: int| 0 <= k < results.len() ==> (#[trigger] results[k].1) < ng.len()
    &&& forall|k: int, l: int|
        0 <= k < l < results.len() ==> #[trigger] results[k].1 != #[trigger] results[l].1
}

/// A priced sort keeps every cost right.
proof fn lemma_sorted_priced(before: Seq<Cromosoma>, after: Seq<Cromosoma>, m: Costs, ps: Seq<u8>)
    requires
        sorted_by_cost(before, after),
        priced(before, m, ps),
    ensures
        priced(after, m, ps),
{
    let order = choose|order: Seq<usize>|
        #[trigger] stable_order_of(super::genetic::costs_of(before), order) && after.len() == before.len()
            && forall|i: int|
            0 <= i < after.len() ==> #[trigger] after[i].palets@ == before[order[i] as int].palets@
                && after[i].cost == before[order[i] as int].cost;
    assert forall|i: int| 0 <= i < after.len() implies (#[trigger] after[i]).cost == chrom_cost(
        m,
        ps,
        after[i].palets@,
    ) by {
        assert(after[i].palets@ == before[order[i] as int].palets@);
        assert(order[i] < before.len());
    }
}

/// Whether `a` and `b` have the same ids and cost.
fn same(a: &Cromosoma, b: &Cromosoma) -> (r: bool)
    ensures
        r == same_chrom(*a, *b),
{
    if a.cost != b.cost || a.palets.len() != b.palets.len() {
        return false;
    }
    let mut i: usize = 0;
    while i < a.palets.len()
        invariant
            i <= a.palets@.len(),
            a.palets@.len() == b.palets@.len(),
            forall|j: int| 0 <= j < i ==> a.palets@[j] == b.palets@[j],
        decreases a.palets@.len() - i,
    {
        if a.palets[i] != b.palets[i] {
            return false;
        }
        i = i + 1;
    }
    proof {
        assert(a.palets@ =~= b.palets@);
    }
    true
}

/// Whether `c` is in the cache.
fn is_cached(cache: &Vec<Cromosoma>, c: &Cromosoma) -> (r: bool)
    ensures
        r == in_cache(cache@, *c),
{
    let mut j: usize = 0;
    while j < cache.len()
        invariant
            j <= cache@.len(),
            forall|l: int| 0 <= l < j ==> !same_chrom(#[trigger] cache@[l], *c),
        decreases cache@.len() - j,
    {
        if same(&cache[j], c) {
            return true;
        }
        j = j + 1;
    }
    false
}

/// Adds `c` to the cache, unless it is there already.
fn cache_insert(cache: &mut Vec<Cromosoma>, c: &Cromosoma)
    ensures
        forall|x: Cromosoma| #[trigger] in_cache(final(cache)@, x) <==> in_cache(old(cache)@, x) || same_chrom(x, *c),
{
    if !is_cached(cache, c) {
        let ghost before = cache@;
        cache.push(c.clone());
        proof {
            assert forall|x: Cromosoma| #[trigger] in_cache(cache@, x) <==> in_cache(before, x) || same_chrom(x, *c) by {
                if in_cache(before, x) {
                    let j = choose|j: int| 0 <= j < before.len() && #[trigger] same_chrom(before[j], x);
                    assert(same_chrom(cache@[j], x));
                }
                if same_chrom(x, *c) {
                    assert(same_chrom(cache@[before.len() as int], x));
                }
                if in_cache(cache@, x) {
                    let j = choose|j: int| 0 <= j < cache@.len() && #[trigger] same_chrom(cache@[j], x);
                    if j < before.len() {
                        assert(same_chrom(before[j], x));
                    }
                }
            }
        }
    } else {
        proof {
            assert forall|x: Cromosoma| #[trigger] in_cache(cache@, x) <==> in_cache(cache@, x) || same_chrom(x, *c) by {
                if same_chrom(x, *c) {
                    let j = choose|j: int| 0 <= j < cache@.len() && #[trigger] same_chrom(cache@[j], *c);
                    assert(same_chrom(cache@[j], x));
                }
            }
        }
    }
}

/// `a == b` for chromosomes: the same cost, and the same first `N_PALETS`
/// positions.
pub open spec fn cromosoma_eq(a: Cromosoma, b: Cromosoma) -> bool {
    a.cost == b.cost && forall|j: int| 0 <= j < N_PALETS ==> #[trigger] same_at(a.palets@, b.palets@, j)
}

/// Position `j` is past the end of both id lists, or holds the same id in
/// both.
pub open spec fn same_at(a: Seq<u8>, b: Seq<u8>, j: int) -> bool {
    (j < a.len()) == (j < b.len()) && (j < a.len() ==> a[j] == b[j])
}

/// Two chromosomes are equal when their costs are, and their first
/// `N_PALETS` positions are (both past the end, or the same id).
impl PartialEq for Cromosoma {
    fn eq(&self, other: &Self) -> (r: bool) {
        if self.cost != other.cost {
            return false;
        }
        let mut i: usize = 0;
        while i < N_PALETS
            invariant
                i <= N_PALETS,
                forall|j: int| 0 <= j < i ==> #[trigger] same_at(self.palets@, other.palets@, j),
            decreases N_PALETS - i,
        {
            let a = i < self.palets.len();
            let b = i < other.palets.len();
            if a != b {
                proof {
                    assert(!same_at(self.palets@, other.palets@, i as int));
                }
                return false;
            }
            if a && self.palets[i] != other.palets[i] {
                proof {
                    assert(!same_at(self.palets@, other.palets@, i as int));
                }
                return false;
            }
            i = i + 1;
        }
        true
    }
}

impl vstd::std_specs::cmp::PartialEqSpecImpl for Cromosoma {
    open spec fn obeys_eq_spec() -> bool {
        true
    }

    open spec fn eq_spec(&self, other: &Self) -> bool {
        cromosoma_eq(*self, *other)
    }
}

/// Equality of chromosomes is reflexive, symmetric and transitive, as `Eq`
/// asks.
pub proof fn lemma_cromosoma_eq(a: Cromosoma, b: Cromosoma, c: Cromosoma)
    ensures
        cromosoma_eq(a, a),
        cromosoma_eq(a, b) ==> cromosoma_eq(b, a),
        cromosoma_eq(a, b) && cromosoma_eq(b, c) ==> cromosoma_eq(a, c),
{
    if cromosoma_eq(a, b) && cromosoma_eq(b, c) {
        assert forall|j: int| 0 <= j < N_PALETS implies #[trigger] same_at(a.palets@, c.palets@, j) by {
            assert(same_at(a.palets@, b.palets@, j));
            assert(same_at(b.palets@, c.palets@, j));
        }
    }
    if cromosoma_eq(a, b) {
        assert forall|j: int| 0 <= j < N_PALETS implies #[trigger] same_at(b.palets@, a.palets@, j) by {
            assert(same_at(a.palets@, b.palets@, j));
        }
    }
}

/// Memetic search over a population of chromosomes.
pub struct Memetic<'a> {
    poblacion: Vec<Cromosoma>,
    palets: &'a Palets,
    cost_mat: &'a Costs,
    name: &'a str,
}

impl<'a> Memetic<'a> {
    /// The current population.
    pub closed spec fn population(&self) -> Seq<Cromosoma> {
        self.poblacion@
    }

    /// The cost matrix.
    pub closed spec fn costs(&self) -> Costs {
        *self.cost_mat
    }

    /// The palets, by id.
    pub closed spec fn palets(&self) -> Seq<u8> {
        self.palets@
    }

    /// The label of the search's records.
    pub closed spec fn label(&self) -> Seq<char> {
        self.name@
    }

    /// The search is sound: the instance fits, and the population holds at
    /// least `N_CROMOSOMA` chromosomes, each a permutation of the ids with its
    /// cost computed.
    pub open spec fn ok(&self) -> bool {
        &&& costs_fit(self.costs())
        &&& valid_palets(self.palets())
        &&& self.palets().len() == N_PALETS
        &&& self.population().len() >= N_CROMOSOMA
        &&& valid_population(self.population())
        &&& priced(self.population(), self.costs(), self.palets())
    }

    /// A population of `N_CROMOSOMA - 1` random chromosomes and one built by
    /// `GAGreedyP` (with the last `N_PALETS` draws), all with their costs
    /// computed. `name` labels the records of the search.
    pub fn new(cost_mat: &'a Costs, palets: &'a Palets, name: &'a str, rng: &mut RNG) -> (s: Self)
        requires
            costs_fit(*cost_mat),
            valid_palets(palets@),
            palets@.len() == N_PALETS,
        ensures
            s.ok(),
            s.costs() == *cost_mat,
            s.palets() == palets@,
            s.population().len() == N_CROMOSOMA,
            exists|lefts: Seq<Seq<usize>>| #[trigger] ga_greedy_order(
                *cost_mat,
                palets@,
                s.population()[N_CROMOSOMA - 1].palets@,
                lefts,
                final(rng).draws().skip(final(rng).draws().len() - N_PALETS),
            ),
            s.label() == name@,
    {
        let poblacion = first_population(cost_mat, palets, rng);
        Memetic { poblacion, palets, cost_mat, name }
    }

    /// The label of the search's records.
    pub fn name(&self) -> (r: &'a str)
        ensures
            r@ == self.label(),
    {
        self.name
    }

    /// Two children: two parents picked by tournaments of two, crossed by
    /// order crossover with probability 85/100 (`CROSS_STEPS`) or else
    /// copied, then priced.
    pub fn breed_pair(&self, rng: &mut RNG) -> (c: (Cromosoma, Cromosoma))
        requires
            self.ok(),
        ensures
            is_perm(c.0.palets@, N_PALETS as int),
            is_perm(c.1.palets@, N_PALETS as int),
            c.0.cost == chrom_cost(self.costs(), self.palets(), c.0.palets@),
            c.1.cost == chrom_cost(self.costs(), self.palets(), c.1.palets@),
            old(rng).draws().is_prefix_of(final(rng).draws()),
            bred_from(self.population(), final(rng).draws().skip(old(rng).draws().len() as int), c.0.palets@, c.1.palets@),
    {
        let ghost pop = self.poblacion@;
        let ghost d_start = rng.draws();
        let a = rng.next() % N_CROMOSOMA;
        let ghost r0 = rng.draws();
        let b = rng.next() % N_CROMOSOMA;
        let ghost r1 = rng.draws();
        let parent1 = tournament(&self.poblacion, a, b);
        let _index_x = rng.next() % N_CROMOSOMA;
        let ghost r2 = rng.draws();
        let x = rng.next() % N_CROMOSOMA;
        let ghost r3 = rng.draws();
        let _index_y = rng.next() % N_CROMOSOMA;
        let ghost r4 = rng.draws();
        let y = rng.next() % N_CROMOSOMA;
        let ghost r5 = rng.draws();
        let parent2 = tournament(&self.poblacion, x, y);
        proof {
            assert(is_perm(pop[parent1 as int].palets@, N_PALETS as int));
            assert(is_perm(pop[parent2 as int].palets@, N_PALETS as int));
        }
        let crossed = rng.next_unit_bits() <= CROSS_STEPS;
        let ghost r6 = rng.draws();
        let ghost seg7 = seq![r0.last(), r1.last(), r2.last(), r3.last(), r4.last(), r5.last(), r6.last()];
        proof {
            assert(r0 =~= d_start.push(r0.last()));
            assert(r1 =~= r0.push(r1.last()));
            assert(r2 =~= r1.push(r2.last()));
            assert(r3 =~= r2.push(r3.last()));
            assert(r4 =~= r3.push(r4.last()));
            assert(r5 =~= r4.push(r5.last()));
            assert(r6 =~= r5.push(r6.last()));
            assert(r6 =~= d_start + seg7);
            assert(parent1 == tourney(pop, drawn_index(seg7[0]), drawn_index(seg7[1])));
            assert(parent2 == tourney(pop, drawn_index(seg7[3]), drawn_index(seg7[5])));
            assert(crossed == drawn_within(seg7[6], CROSS_STEPS));
        }
        let (mut c1, mut c2) = if crossed {
            CrossType::OX.cross(&self.poblacion[parent1], &self.poblacion[parent2], rng)
        } else {
            (self.poblacion[parent1].clone(), self.poblacion[parent2].clone())
        };
        let ghost seg = rng.draws().skip(d_start.len() as int);
        proof {
            if crossed {
                assert(rng.draws().take(r6.len() as int) == r6);
            }
            assert(r6.is_prefix_of(rng.draws()));
            assert(rng.draws() =~= d_start + seg);
            assert(seg.take(7) =~= seg7);
            assert(seg[0] == seg7[0] && seg[1] == seg7[1] && seg[3] == seg7[3] && seg[5] == seg7[5] && seg[6] == seg7[6]);
            if crossed {
                let n = r6.len() as int;
                assert(seg.len() == 9);
                assert(seg[7] == rng.draws()[n] && seg[8] == rng.draws()[n + 1]);
                assert(ox_draws(seg.take(7), seg, pop[parent1 as int].palets@, pop[parent2 as int].palets@, c1.palets@, c2.palets@));
            } else {
                assert(seg =~= seg7);
            }
            assert(bred_from(pop, seg, c1.palets@, c2.palets@));
            lemma_chrom_cost_fits(*self.cost_mat, self.palets@, c1.palets@);
            lemma_chrom_cost_fits(*self.cost_mat, self.palets@, c2.palets@);
        }
        c1.cost(self.palets, self.cost_mat);
        c2.cost(self.palets, self.cost_mat);
        (c1, c2)
    }

    /// The children of `PAIRS` pairs, bred one pair after another.
    pub fn get_next_gen_st(&mut self, rng: &mut RNG) -> (next_gen: Vec<Cromosoma>)
        requires
            old(self).ok(),
        ensures
            final(self).label() == old(self).label(),
            final(self).population() == old(self).population(),
            final(self).costs() == old(self).costs(),
            final(self).palets() == old(self).palets(),
            next_gen@.len() == 2 * PAIRS,
            valid_population(next_gen@),
            priced(next_gen@, old(self).costs(), old(self).palets()),
            exists|segs: Seq<Seq<u64>>| #![trigger segs.flatten()]
                segs.len() == PAIRS && final(rng).draws() == old(rng).draws() + segs.flatten() && forall|p: int|
                    0 <= p < PAIRS ==> #[trigger] bred_from(old(self).population(), segs[p], next_gen@[2 * p].palets@, next_gen@[2 * p + 1].palets@),
    {
        let mut next_gen: Vec<Cromosoma> = Vec::new();
        let mut pair: usize = 0;
        let ghost mut segs: Seq<Seq<u64>> = Seq::empty();
        while pair < PAIRS
            invariant
                pair <= PAIRS,
                self.ok(),
                self.population() == old(self).population(),
                self.costs() == old(self).costs(),
                self.palets() == old(self).palets(),
                next_gen@.len() == 2 * pair,
                valid_population(next_gen@),
                priced(next_gen@, self.costs(), self.palets()),
                segs.len() == pair,
                rng.draws() == old(rng).draws() + segs.flatten(),
                forall|p: int| 0 <= p < pair ==> #[trigger] bred_from(self.population(), segs[p], next_gen@[2 * p].palets@, next_gen@[2 * p + 1].palets@),
            decreases PAIRS - pair,
        {
            let ghost d_start = rng.draws();
            let (c1, c2) = self.breed_pair(rng);
            let ghost seg = rng.draws().skip(d_start.len() as int);
            let ghost before = next_gen@;
            let ghost o_segs = segs;
            next_gen.push(c1);
            next_gen.push(c2);
            proof {
                assert(rng.draws() =~= d_start + seg);
                segs = segs.push(seg);
                o_segs.lemma_flatten_push(seg);
                assert(rng.draws() =~= old(rng).draws() + segs.flatten());
                assert forall|p: int| 0 <= p < pair + 1 implies #[trigger] bred_from(self.population(), segs[p], next_gen@[2 * p].palets@, next_gen@[2 * p + 1].palets@) by {
                    if p < pair {
                        assert(next_gen@[2 * p] == before[2 * p]);
                        assert(next_gen@[2 * p + 1] == before[2 * p + 1]);
                        assert(segs[p] == o_segs[p]);
                    }
                }
            }
            pair = pair + 1;
        }
        next_gen
    }

    /// Sorts the population by cost (stable), and gives its lowest cost.
    pub fn begin_generation(&mut self) -> (min: usize)
        requires
            old(self).ok(),
        ensures
            final(self).label() == old(self).label(),
            final(self).ok(),
            final(self).costs() == old(self).costs(),
            final(self).palets() == old(self).palets(),
            sorted_by_cost(old(self).population(), final(self).population()),
            exists|i: int| 0 <= i < final(self).population().len() && min == #[trigger] final(self).population()[i].cost,
            forall|i: int| 0 <= i < final(self).population().len() ==> min <= #[trigger] final(self).population()[i].cost,
    {
        let sorted = sort_by_cost(&self.poblacion);
        proof {
            lemma_sorted_priced(self.poblacion@, sorted@, self.costs(), self.palets());
        }
        self.poblacion = sorted;
        min_cost(&self.poblacion)
    }

    /// The next generation before its local search: `children` followed by
    /// copies of the first `N_ELITISM` chromosomes of the population, sorted
    /// by cost (stable).
    pub fn gather(&self, children: Vec<Cromosoma>) -> (next_gen: Vec<Cromosoma>)
        requires
            self.ok(),
            valid_population(children@),
            priced(children@, self.costs(), self.palets()),
        ensures
            next_gen@.len() == children@.len() + N_ELITISM,
            valid_population(next_gen@),
            priced(next_gen@, self.costs(), self.palets()),
            exists|all: Seq<Cromosoma>|
                #[trigger] sorted_by_cost(all, next_gen@) && all.len() == children@.len() + N_ELITISM
                    && all.take(children@.len() as int) == children@ && forall|e: int|
                    0 <= e < N_ELITISM ==> #[trigger] same_chrom(all[children@.len() + e], self.population()[e]),
    {
        let mut all = children;
        let ghost n = all@.len();
        let mut e: usize = 0;
        while e < N_ELITISM
            invariant
                e <= N_ELITISM,
                self.ok(),
                all@.len() == n + e,
                all@.take(n as int) == children@,
                valid_population(all@),
                priced(all@, self.costs(), self.palets()),
                forall|x: int| 0 <= x < e ==> #[trigger] same_chrom(all@[n + x], self.population()[x]),
            decreases N_ELITISM - e,
        {
            let ghost before = all@;
            all.push(self.poblacion[e].clone());
            proof {
                assert(all@.take(n as int) =~= before.take(n as int));
                assert forall|x: int| 0 <= x < e + 1 implies #[trigger] same_chrom(all@[n + x], self.population()[x]) by {
                    if x < e {
                        assert(all@[n + x] == before[n + x]);
                    }
                }
                assert(is_perm(self.population()[e as int].palets@, N_PALETS as int));
            }
            e = e + 1;
        }
        let next_gen = sort_by_cost(&all);
        proof {
            lemma_sorted_priced(all@, next_gen@, self.costs(), self.palets());
            assert(sorted_by_cost(all@, next_gen@));
        }
        next_gen
    }

    /// Whether generation `gen` runs the local search: every `OPT_CD`
    /// generations.
    pub fn ls_due(gen: usize) -> (b: bool)
        ensures
            b == (gen % OPT_CD == 0),
    {
        gen % OPT_CD == 0
    }

    /// The positions, below `LS_N`, of the chromosomes of `next_gen` that the
    /// local search is to try in generation `gen`: every `OPT_CD`
    /// generations, those not in the cache; none otherwise.
    pub fn ls_candidates(gen: usize, next_gen: &Vec<Cromosoma>, cache: &Vec<Cromosoma>) -> (c: Vec<usize>)
        requires
            next_gen@.len() >= LS_N,
        ensures
            c@ == if gen % OPT_CD == 0 {
                uncached(next_gen@, cache@, LS_N as int)
            } else {
                Seq::empty()
            },
    {
        let mut c: Vec<usize> = Vec::new();
        if !Self::ls_due(gen) {
            return c;
        }
        let mut i: usize = 0;
        while i < LS_N
            invariant
                i <= LS_N,
                next_gen@.len() >= LS_N,
                c@ == uncached(next_gen@, cache@, i as int),
            decreases LS_N - i,
        {
            if !is_cached(cache, &next_gen[i]) {
                c.push(i);
            }
            i = i + 1;
        }
        c
    }

    /// Takes in the results of the local searches, in order: where a result
    /// for position `i` is cheaper than the chromosome there, that chromosome
    /// enters the cache and the result takes its place.
    pub fn adopt(
        &self,
        next_gen: &mut Vec<Cromosoma>,
        cache: &mut Vec<Cromosoma>,
        results: Vec<(Cromosoma, usize)>,
    )
        requires
            results_ok(results@, old(next_gen)@),
            forall|k: int| 0 <= k < results@.len() ==> is_perm(#[trigger] results@[k].0.palets@, N_PALETS as int)
                && results@[k].0.cost == chrom_cost(self.costs(), self.palets(), results@[k].0.palets@),
        ensures
            valid_population(old(next_gen)@) && priced(old(next_gen)@, self.costs(), self.palets()) ==> valid_population(
                final(next_gen)@,
            ) && priced(final(next_gen)@, self.costs(), self.palets()),
            final(next_gen)@.len() == old(next_gen)@.len(),
            forall|j: int| 0 <= j < old(next_gen)@.len() ==> #[trigger] final(next_gen)@[j].cost <= old(next_gen)@[j].cost,
            forall|k: int|
                0 <= k < results@.len() && #[trigger] results@[k].0.cost < old(next_gen)@[results@[k].1 as int].cost
                    ==> same_chrom(final(next_gen)@[results@[k].1 as int], results@[k].0),
            forall|j: int|
                0 <= j < old(next_gen)@.len() && !improved_upto(results@, old(next_gen)@, j, results@.len() as int)
                    ==> #[trigger] final(next_gen)@[j] == old(next_gen)@[j],
            forall|x: Cromosoma| #[trigger] in_cache(final(cache)@, x) <==> in_cache(old(cache)@, x) || exists|j: int|
                0 <= j < old(next_gen)@.len() && improved_upto(results@, old(next_gen)@, j, results@.len() as int)
                    && #[trigger] same_chrom(x, old(next_gen)@[j]),
    {
        let ghost ng0 = next_gen@;
        let ghost cache0 = cache@;
        let mut k: usize = 0;
        while k < results.len()
            invariant
                k <= results@.len(),
                results_ok(results@, ng0),
                forall|l: int| 0 <= l < results@.len() ==> is_perm(#[trigger] results@[l].0.palets@, N_PALETS as int)
                    && results@[l].0.cost == chrom_cost(self.costs(), self.palets(), results@[l].0.palets@),
                valid_population(ng0) && priced(ng0, self.costs(), self.palets()) ==> valid_population(next_gen@)
                    && priced(next_gen@, self.costs(), self.palets()),
                next_gen@.len() == ng0.len(),
                forall|j: int| 0 <= j < ng0.len() ==> #[trigger] next_gen@[j].cost <= ng0[j].cost,
                forall|l: int|
                    0 <= l < k && #[trigger] results@[l].0.cost < ng0[results@[l].1 as int].cost
                        ==> same_chrom(next_gen@[results@[l].1 as int], results@[l].0),
                forall|j: int|
                    0 <= j < ng0.len() && !improved_upto(results@, ng0, j, k as int) ==> #[trigger] next_gen@[j] == ng0[j],
                forall|x: Cromosoma| #[trigger] in_cache(cache@, x) <==> in_cache(cache0, x) || exists|j: int|
                    0 <= j < ng0.len() && improved_upto(results@, ng0, j, k as int) && #[trigger] same_chrom(x, ng0[j]),
            decreases results@.len() - k,
        {
            let i = results[k].1;
            proof {
                assert(!improved_upto(results@, ng0, i as int, k as int)) by {
                    if improved_upto(results@, ng0, i as int, k as int) {
                        let l = choose|l: int| 0 <= l < k && #[trigger] results@[l].1 == i as int && results@[l].0.cost < ng0[i as int].cost;
                        assert(results@[l].1 != results@[k as int].1);
                    }
                }
                assert(next_gen@[i as int] == ng0[i as int]);
            }
            if results[k].0.cost < next_gen[i].cost {
                let ghost before = next_gen@;
                let ghost cache_before = cache@;
                cache_insert(cache, &next_gen[i]);
                let sol = results[k].0.clone();
                next_gen.set(i, sol);
                proof {
                    assert(improved_upto(results@, ng0, i as int, k + 1));
                    assert forall|l: int|
                        0 <= l < k + 1 && #[trigger] results@[l].0.cost < ng0[results@[l].1 as int].cost
                            implies same_chrom(next_gen@[results@[l].1 as int], results@[l].0) by {
                        if l < k {
                            assert(results@[l].1 != results@[k as int].1);
                        }
                    }
                    assert forall|j: int|
                        0 <= j < ng0.len() && !improved_upto(results@, ng0, j, k + 1) implies #[trigger] next_gen@[j] == ng0[j] by {
                        assert(j != i);
                        assert(!improved_upto(results@, ng0, j, k as int)) by {
                            if improved_upto(results@, ng0, j, k as int) {
                                let l = choose|l: int| 0 <= l < k && #[trigger] results@[l].1 == j && results@[l].0.cost < ng0[j].cost;
                                assert(improved_upto(results@, ng0, j, k + 1));
                            }
                        }
                    }
                    assert forall|x: Cromosoma| #[trigger] in_cache(cache@, x) <==> in_cache(cache0, x) || exists|j: int|
                        0 <= j < ng0.len() && improved_upto(results@, ng0, j, k + 1) && #[trigger] same_chrom(x, ng0[j]) by {
                        if in_cache(cache@, x) {
                            if in_cache(cache_before, x) {
                                if !in_cache(cache0, x) {
                                    let j = choose|j: int| 0 <= j < ng0.len() && improved_upto(results@, ng0, j, k as int) && #[trigger] same_chrom(x, ng0[j]);
                                    let l = choose|l: int| 0 <= l < k && #[trigger] results@[l].1 == j && results@[l].0.cost < ng0[j].cost;
                                    assert(improved_upto(results@, ng0, j, k + 1));
                                }
                            } else {
                                assert(same_chrom(x, ng0[i as int]));
                            }
                        }
                        if exists|j: int| 0 <= j < ng0.len() && improved_upto(results@, ng0, j, k + 1) && #[trigger] same_chrom(x, ng0[j]) {
                            let j = choose|j: int| 0 <= j < ng0.len() && improved_upto(results@, ng0, j, k + 1) && #[trigger] same_chrom(x, ng0[j]);
                            if j == i {
                                assert(same_chrom(x, before[i as int]));
                            } else {
                                let l = choose|l: int| 0 <= l < k + 1 && #[trigger] results@[l].1 == j && results@[l].0.cost < ng0[j].cost;
                                assert(l < k);
                                assert(improved_upto(results@, ng0, j, k as int));
                            }
                        }
                    }
                }
            } else {
                proof {
                    assert forall|j: int|
                        0 <= j < ng0.len() && !improved_upto(results@, ng0, j, k + 1) implies #[trigger] next_gen@[j] == ng0[j] by {
                        assert(!improved_upto(results@, ng0, j, k as int)) by {
                            if improved_upto(results@, ng0, j, k as int) {
                                let l = choose|l: int| 0 <= l < k && #[trigger] results@[l].1 == j && results@[l].0.cost < ng0[j].cost;
                                assert(improved_upto(results@, ng0, j, k + 1));
                            }
                        }
                    }
                    assert forall|x: Cromosoma| #[trigger] in_cache(cache@, x) <==> in_cache(cache0, x) || exists|j: int|
                        0 <= j < ng0.len() && improved_upto(results@, ng0, j, k + 1) && #[trigger] same_chrom(x, ng0[j]) by {
                        if exists|j: int| 0 <= j < ng0.len() && improved_upto(results@, ng0, j, k + 1) && #[trigger] same_chrom(x, ng0[j]) {
                            let j = choose|j: int| 0 <= j < ng0.len() && improved_upto(results@, ng0, j, k + 1) && #[trigger] same_chrom(x, ng0[j]);
                            let l = choose|l: int| 0 <= l < k + 1 && #[trigger] results@[l].1 == j && results@[l].0.cost < ng0[j].cost;
                            assert(l < k);
                            assert(improved_upto(results@, ng0, j, k as int));
                        }
                        if exists|j: int| 0 <= j < ng0.len() && improved_upto(results@, ng0, j, k as int) && #[trigger] same_chrom(x, ng0[j]) {
                            let j = choose|j: int| 0 <= j < ng0.len() && improved_upto(results@, ng0, j, k as int) && #[trigger] same_chrom(x, ng0[j]);
                            let l = choose|l: int| 0 <= l < k && #[trigger] results@[l].1 == j && results@[l].0.cost < ng0[j].cost;
                            assert(improved_upto(results@, ng0, j, k + 1));
                        }
                    }
                }
            }
            k = k + 1;
        }
    }

    /// The next generation becomes the population.
    pub fn end_generation(&mut self, next_gen: Vec<Cromosoma>)
        requires
            old(self).ok(),
            next_gen@.len() >= N_CROMOSOMA,
            valid_population(next_gen@),
            priced(next_gen@, old(self).costs(), old(self).palets()),
        ensures
            final(self).label() == old(self).label(),
            final(self).ok(),
            final(self).population() == next_gen@,
            final(self).costs() == old(self).costs(),
            final(self).palets() == old(self).palets(),
    {
        self.poblacion = next_gen;
    }

    /// One generation on one thread: sorts the population and takes its
    /// lowest cost, breeds `PAIRS` pairs, gathers them with the elites, and in
    /// generation `gen`, where `ls_due` holds, lets the local search `bl` try
    /// each of the first `LS_N` chromosomes in turn, without a cache; the
    /// result becomes the population. Returns the lowest cost taken at the
    /// start.
    pub fn generation_st(&mut self, gen: usize, bl: &LocalSearchMM, rng: &mut RNG) -> (min: usize)
        requires
            old(self).ok(),
            bl.costs() == old(self).costs(),
            bl.palets() == old(self).palets(),
        ensures
            final(self).ok(),
            final(self).label() == old(self).label(),
            final(self).costs() == old(self).costs(),
            final(self).palets() == old(self).palets(),
            mm_generation(old(self).population(), final(self).population()),
            exists|i: int| 0 <= i < old(self).population().len() && min == #[trigger] old(self).population()[i].cost,
            forall|i: int| 0 <= i < old(self).population().len() ==> min <= #[trigger] old(self).population()[i].cost,
    {
        let ghost before = self.population();
        let min = self.begin_generation();
        let ghost pop = self.population();
        proof {
            lemma_sorted_by_cost_is_sorted(before, pop);
            lemma_sorted_first_is_cheapest(before, pop);
            let i = choose|i: int| 0 <= i < pop.len() && min == #[trigger] pop[i].cost;
            assert(pop[0].cost <= pop[i].cost);
            assert(min == pop[0].cost);
            let order = choose|order: Seq<usize>|
                #[trigger] stable_order_of(costs_of(before), order) && pop.len() == before.len() && forall|k: int|
                    0 <= k < pop.len() ==> #[trigger] pop[k].palets@ == before[order[k] as int].palets@
                        && pop[k].cost == before[order[k] as int].cost;
            assert(pop[0].cost == before[order[0] as int].cost);
            assert(0 <= order[0] < before.len());
        }
        let children = self.get_next_gen_st(rng);
        let mut next_gen = self.gather(children);
        let ghost gathered = next_gen@;
        if Self::ls_due(gen) {
            let mut results: Vec<(Cromosoma, usize)> = Vec::new();
            let mut i: usize = 0;
            while i < LS_N
                invariant
                    i <= LS_N,
                    LS_N <= next_gen@.len(),
                    bl.costs() == self.costs(),
                    bl.palets() == self.palets(),
                    self.ok(),
                    valid_population(next_gen@),
                    priced(next_gen@, self.costs(), self.palets()),
                    results@.len() == i,
                    forall|k: int| 0 <= k < i ==> (#[trigger] results@[k]).1 == k,
                    forall|k: int| 0 <= k < i ==> is_perm(#[trigger] results@[k].0.palets@, N_PALETS as int)
                        && results@[k].0.cost == chrom_cost(self.costs(), self.palets(), results@[k].0.palets@),
                decreases LS_N - i,
            {
                proof {
                    assert(is_perm(next_gen@[i as int].palets@, N_PALETS as int));
                }
                let r = bl.run_with_start::<EVALS>(&next_gen[i], rng);
                results.push((r, i));
                i = i + 1;
            }
            let mut unused_cache: Vec<Cromosoma> = Vec::new();
            self.adopt(&mut next_gen, &mut unused_cache, results);
        }
        proof {
            let all = choose|all: Seq<Cromosoma>|
                #[trigger] sorted_by_cost(all, gathered) && all.len() == 2 * PAIRS + N_ELITISM
                    && all.take(2 * PAIRS as int) == children@ && forall|e: int|
                    0 <= e < N_ELITISM ==> #[trigger] same_chrom(all[2 * PAIRS + e], pop[e]);
            assert(sorted_by_cost(before, pop) && sorted_by_cost(all, gathered));
        }
        self.end_generation(next_gen);
        min
    }

    /// The lowest cost of the population.
    pub fn best_cost(&self) -> (c: usize)
        requires
            self.ok(),
        ensures
            exists|i: int| 0 <= i < self.population().len() && c == #[trigger] self.population()[i].cost,
            forall|i: int| 0 <= i < self.population().len() ==> c <= #[trigger] self.population()[i].cost,
    {
        min_cost(&self.poblacion)
    }
}

/// A generation of the memetic search never raises the lowest cost: where
/// `begin_generation` sorts the population `before` into `pop`, `gather`
/// makes `gathered` from `all` (children, then the first `N_ELITISM` of
/// `pop`), and `adopt` turns `gathered` into `adopted`, the next population
/// `adopted` has the children and `N_ELITISM` more (`2 * PAIRS + N_ELITISM`
/// with `get_next_gen_st`), and its first costs no more than any chromosome
/// of `before`.
pub proof fn lemma_generation_keeps_best(
    before: Seq<Cromosoma>,
    pop: Seq<Cromosoma>,
    children_len: int,
    all: Seq<Cromosoma>,
    gathered: Seq<Cromosoma>,
    adopted: Seq<Cromosoma>,
)
    requires
        before.len() >= N_ELITISM,
        sorted_by_cost(before, pop),
        0 <= children_len,
        all.len() == children_len + N_ELITISM,
        forall|e: int| 0 <= e < N_ELITISM ==> #[trigger] same_chrom(all[children_len + e], pop[e]),
        sorted_by_cost(all, gathered),
        adopted.len() == gathered.len(),
        forall|j: int| 0 <= j < gathered.len() ==> #[trigger] adopted[j].cost <= gathered[j].cost,
    ensures
        adopted.len() == children_len + N_ELITISM,
        adopted.len() > 0,
        forall|j: int| 0 <= j < before.len() ==> adopted[0].cost <= #[trigger] before[j].cost,
{
    lemma_sorted_first_is_cheapest(before, pop);
    lemma_sorted_by_cost_is_sorted(all, gathered);
    lemma_sorted_first_is_cheapest(all, gathered);
    let e0: int = 0;
    assert(same_chrom(all[children_len + e0], pop[e0]));
    assert(gathered[0].cost <= all[children_len].cost);
    assert(adopted[0].cost <= gathered[0].cost);
}

/// One generation of the memetic search turns the population `before` into
/// `after`: `before` sorted by cost (stable) is `pop`; `2 * PAIRS` children
/// followed by the first `N_ELITISM` chromosomes of `pop` make `all`, which
/// sorted by cost is `gathered`; the local search may lower the cost at any
/// position of `gathered`, which gives `after`.
pub open spec fn mm_generation(before: Seq<Cromosoma>, after: Seq<Cromosoma>) -> bool {
    exists|pop: Seq<Cromosoma>, all: Seq<Cromosoma>, gathered: Seq<Cromosoma>|
        #![trigger sorted_by_cost(before, pop), sorted_by_cost(all, gathered)]
        sorted_by_cost(before, pop) && sorted_by_cost(all, gathered) && all.len() == 2 * PAIRS + N_ELITISM
            && (forall|e: int| 0 <= e < N_ELITISM ==> #[trigger] same_chrom(all[2 * PAIRS + e], pop[e]))
            && after.len() == gathered.len() && forall|j: int|
            0 <= j < gathered.len() ==> #[trigger] after[j].cost <= gathered[j].cost
}

/// After one generation the population holds `2 * PAIRS + N_ELITISM`
/// chromosomes, and its first costs no more than any chromosome before.
pub proof fn lemma_generation_step(before: Seq<Cromosoma>, after: Seq<Cromosoma>)
    requires
        before.len() >= N_ELITISM,
        mm_generation(before, after),
    ensures
        after.len() == 2 * PAIRS + N_ELITISM,
        forall|j: int| 0 <= j < before.len() ==> after[0].cost <= #[trigger] before[j].cost,
{
    let (pop, all, gathered) = choose|pop: Seq<Cromosoma>, all: Seq<Cromosoma>, gathered: Seq<Cromosoma>|
        #![trigger sorted_by_cost(before, pop), sorted_by_cost(all, gathered)]
        sorted_by_cost(before, pop) && sorted_by_cost(all, gathered) && all.len() == 2 * PAIRS + N_ELITISM
            && (forall|e: int| 0 <= e < N_ELITISM ==> #[trigger] same_chrom(all[2 * PAIRS + e], pop[e]))
            && after.len() == gathered.len() && forall|j: int|
            0 <= j < gathered.len() ==> #[trigger] after[j].cost <= gathered[j].cost;
    lemma_generation_keeps_best(before, pop, 2 * PAIRS as int, all, gathered, after);
}

/// Over a run of the memetic search, where each population comes from the one
/// before by a generation, every population after the first holds
/// `2 * PAIRS + N_ELITISM` chromosomes, and the first chromosome of a later
/// population costs no more than any chromosome of an earlier one: the lowest
/// cost of the population never rises from one generation to the next.
pub proof fn lemma_run_keeps_best(pops: Seq<Seq<Cromosoma>>)
    requires
        pops.len() > 0 ==> pops[0].len() >= N_ELITISM,
        forall|g: int| 0 <= g < pops.len() - 1 ==> mm_generation(#[trigger] pops[g], pops[g + 1]),
    ensures
        forall|g: int| 1 <= g < pops.len() ==> (#[trigger] pops[g]).len() == 2 * PAIRS + N_ELITISM,
        forall|g1: int, g2: int, j: int|
            #![trigger pops[g2][0], pops[g1][j]]
            0 <= g1 < g2 < pops.len() && 0 <= j < pops[g1].len() ==> pops[g2][0].cost <= pops[g1][j].cost,
    decreases pops.len(),
{
    if pops.len() > 1 {
        let n = pops.len() - 1;
        let init = pops.take(n);
        assert forall|g: int| 0 <= g < init.len() - 1 implies mm_generation(#[trigger] init[g], init[g + 1]) by {
            assert(mm_generation(pops[g], pops[g + 1]));
        }
        lemma_run_keeps_best(init);
        assert(pops[n - 1] == init[n - 1]);
        assert(pops[n - 1].len() >= N_ELITISM) by {
            if n - 1 >= 1 {
                assert(init[n - 1].len() == 2 * PAIRS + N_ELITISM);
            }
        }
        assert(mm_generation(pops[n - 1], pops[n]));
        lemma_generation_step(pops[n - 1], pops[n]);
        assert forall|g: int| 1 <= g < pops.len() implies (#[trigger] pops[g]).len() == 2 * PAIRS + N_ELITISM by {
            if g < n {
                assert(pops[g] == init[g]);
            }
        }
        assert forall|g1: int, g2: int, j: int|
            #![trigger pops[g2][0], pops[g1][j]]
            0 <= g1 < g2 < pops.len() && 0 <= j < pops[g1].len() implies pops[g2][0].cost <= pops[g1][j].cost by {
            assert(pops[g1] == init[g1]);
            if g2 < n {
                assert(pops[g2] == init[g2]);
                assert(init[g2][0].cost <= init[g1][j].cost);
            } else if g1 < n - 1 {
                assert(pops[n - 1] == init[n - 1]);
                assert(init[n - 1][0].cost <= init[g1][j].cost);
                assert(pops[n][0].cost <= pops[n - 1][0].cost);
            }
        }
    }
}

/// The draws `d` of an exchange of the memetic local search, from `s` to
/// `c`: the first picks a position, the second another (redrawn while it is
/// the first); `c` is `s` with those two positions exchanged.
pub open spec fn mm_swap_draws(d: Seq<u64>, s: Seq<u8>, c: Seq<u8>) -> bool {
    let a = drawn_below(d[0], N_PALETS);
    &&& d.len() >= 2
    &&& exists|b: int| redrawn(drawn_below(d[1], N_PALETS), d.skip(2), N_PALETS, |v: int| v == a, b) && c == #[trigger] swap_seq(s, a, b)
}

/// Step `k` of the local search of a chromosome: a neighbour of `bests[k]`
/// (two ids exchanged) replaces it where its cost is below `costs[k]`.
pub open spec fn mm_step(m: Costs, dests: Seq<u8>, bests: Seq<Seq<u8>>, costs: Seq<int>, ds: Seq<Seq<u64>>, k: int) -> bool {
    exists|nb: Seq<u8>|
        #[trigger] one_swap(bests[k], nb) && mm_swap_draws(ds[k], bests[k], nb) && if chrom_cost(m, dests, nb) < costs[k] {
            bests[k + 1] == nb && costs[k + 1] == chrom_cost(m, dests, nb)
        } else {
            bests[k + 1] == bests[k] && costs[k + 1] == costs[k]
        }
}

/// `n` steps of the local search from `start`: the ids and cost held before
/// each step and after the last.
pub open spec fn mm_trace(
    m: Costs,
    dests: Seq<u8>,
    start: Cromosoma,
    n: int,
    bests: Seq<Seq<u8>>,
    costs: Seq<int>,
    ds: Seq<Seq<u64>>,
) -> bool {
    &&& bests.len() == n + 1
    &&& ds.len() == n
    &&& costs.len() == n + 1
    &&& bests[0] == start.palets@
    &&& costs[0] == kept_cost(m, dests, start)
    &&& forall|k: int| 0 <= k < n ==> #[trigger] mm_step(m, dests, bests, costs, ds, k)
}

/// Local search over a chromosome, for the memetic search.
pub struct LocalSearchMM<'a> {
    cost_mat: &'a Costs,
    palets: &'a Palets,
}

impl<'a> LocalSearchMM<'a> {
    /// The cost matrix.
    pub closed spec fn costs(&self) -> Costs {
        *self.cost_mat
    }

    /// The palets, by id.
    pub closed spec fn palets(&self) -> Seq<u8> {
        self.palets@
    }

    pub fn new(cost_mat: &'a Costs, palets: &'a Palets) -> (s: Self)
        ensures
            s.costs() == *cost_mat,
            s.palets() == palets@,
    {
        LocalSearchMM { cost_mat, palets }
    }

    /// `EVALS` times, a neighbour of the best chromosome (two ids exchanged)
    /// replaces it where it is cheaper. Starts from `sol`, at the cost it
    /// keeps (`kept_cost`); `mm_trace` states the steps.
    pub fn run_with_start<const EVALS: usize>(&self, sol: &Cromosoma, rng: &mut RNG) -> (best: Cromosoma)
        requires
            costs_fit(self.costs()),
            valid_palets(self.palets()),
            sol.palets@.len() == N_PALETS,
            forall|i: int| 0 <= i < N_PALETS ==> (#[trigger] sol.palets@[i]) < self.palets().len(),
        ensures
            best.palets@.len() == N_PALETS,
            forall|i: int| 0 <= i < N_PALETS ==> (#[trigger] best.palets@[i]) < self.palets().len(),
            is_perm(sol.palets@, N_PALETS as int) ==> is_perm(best.palets@, N_PALETS as int),
            exists|bests: Seq<Seq<u8>>, costs: Seq<int>, ds: Seq<Seq<u64>>|
                #[trigger] mm_trace(self.costs(), self.palets(), *sol, EVALS as int, bests, costs, ds)
                    && final(rng).draws() == old(rng).draws() + ds.flatten()
                    && best.palets@ == bests.last() && best.cost == costs.last(),
            best.cost <= kept_cost(self.costs(), self.palets(), *sol),
            best.cost == chrom_cost(self.costs(), self.palets(), best.palets@) || (best.palets@ == sol.palets@
                && best.cost == sol.cost),
            sol.cost == 0 || sol.cost == chrom_cost(self.costs(), self.palets(), sol.palets@) ==> best.cost
                == chrom_cost(self.costs(), self.palets(), best.palets@),
    {
        let ghost m = self.costs();
        let ghost ps = self.palets();
        let mut best_sol = sol.clone();
        proof {
            lemma_chrom_cost_fits(*self.cost_mat, self.palets@, best_sol.palets@);
        }
        let mut best_cost = best_sol.cost(self.palets, self.cost_mat);
        let ghost mut bests: Seq<Seq<u8>> = seq![sol.palets@];
        let ghost mut costs: Seq<int> = seq![best_cost as int];
        let ghost mut ds: Seq<Seq<u64>> = Seq::empty();
        proof {
            assert(rng.draws() =~= old(rng).draws() + ds.flatten());
        }
        let mut it: usize = 0;
        while it < EVALS
            invariant
                m == self.costs(),
                ps == self.palets(),
                costs_fit(m),
                valid_palets(ps),
                it <= EVALS,
                best_sol.palets@.len() == N_PALETS,
                forall|i: int| 0 <= i < N_PALETS ==> (#[trigger] best_sol.palets@[i]) < ps.len(),
                is_perm(sol.palets@, N_PALETS as int) ==> is_perm(best_sol.palets@, N_PALETS as int),
                best_cost == best_sol.cost,
                best_cost <= kept_cost(m, ps, *sol),
                best_cost == chrom_cost(m, ps, best_sol.palets@) || (best_sol.palets@ == sol.palets@ && best_cost == sol.cost),
                sol.cost == 0 || sol.cost == chrom_cost(m, ps, sol.palets@) ==> best_cost == chrom_cost(m, ps, best_sol.palets@),
                mm_trace(m, ps, *sol, it as int, bests, costs, ds),
                rng.draws() == old(rng).draws() + ds.flatten(),
                best_sol.palets@ == bests.last(),
                best_cost == costs.last(),
            decreases EVALS - it,
        {
            it = it + 1;
            let ghost dprev = rng.draws();
            let ghost o_ds = ds;
            let mut next_sol = Self::gen_neighbour(&best_sol, true, rng);
            let ghost seg = drawn_since(dprev, rng.draws());
            proof {
                assert(rng.draws() =~= dprev + seg);
                ds = ds.push(seg);
                o_ds.lemma_flatten_push(seg);
                assert(rng.draws() =~= old(rng).draws() + ds.flatten());
                assert forall|i: int| 0 <= i < N_PALETS implies (#[trigger] next_sol.palets@[i]) < ps.len() by {
                    let j = choose|j: int| 0 <= j < N_PALETS && #[trigger] next_sol.palets@[i] == best_sol.palets@[j];
                    assert(best_sol.palets@[j] < ps.len());
                }
                lemma_chrom_cost_fits(*self.cost_mat, self.palets@, next_sol.palets@);
            }
            let next_cost = next_sol.cost(self.palets, self.cost_mat);
            let ghost nb = next_sol.palets@;
            let ghost o_bests = bests;
            let ghost o_costs = costs;
            if next_cost < best_cost {
                best_sol = next_sol;
                best_cost = next_cost;
            }
            proof {
                bests = bests.push(best_sol.palets@);
                costs = costs.push(best_cost as int);
                let k = it - 1;
                assert(one_swap(o_bests.last(), nb));
                assert(bests[k] == o_bests.last() && costs[k] == o_costs.last());
                assert(mm_step(m, ps, bests, costs, ds, k));
                assert forall|j: int| 0 <= j < it implies #[trigger] mm_step(m, ps, bests, costs, ds, j) by {
                    if j < k {
                        assert(mm_step(m, ps, o_bests, o_costs, o_ds, j));
                        assert(ds[j] == o_ds[j]);
                        assert(bests[j] == o_bests[j] && bests[j + 1] == o_bests[j + 1]);
                        assert(costs[j] == o_costs[j] && costs[j + 1] == o_costs[j + 1]);
                    }
                }
            }
        }
        best_sol
    }

    /// `sol` with two ids exchanged and its cost unknown: two positions of
    /// the whole chromosome when `change_palets` holds, else two positions of
    /// one truck's run (a redraw of the second falls in the first truck's run).
    fn gen_neighbour(sol: &Cromosoma, change_palets: bool, rng: &mut RNG) -> (nb: Cromosoma)
        requires
            sol.palets@.len() == N_PALETS,
        ensures
            nb.palets@.len() == N_PALETS,
            forall|i: int| 0 <= i < N_PALETS ==> exists|j: int| 0 <= j < N_PALETS && #[trigger] nb.palets@[i] == sol.palets@[j],
            is_perm(sol.palets@, N_PALETS as int) ==> is_perm(nb.palets@, N_PALETS as int),
            nb.cost == 0,
            exists|a: int, b: int|
                0 <= a < N_PALETS && 0 <= b < N_PALETS && a != b && nb.palets@ == #[trigger] swap_seq(sol.palets@, a, b),
            old(rng).draws().is_prefix_of(final(rng).draws()),
            change_palets ==> mm_swap_draws(drawn_since(old(rng).draws(), final(rng).draws()), sol.palets@, nb.palets@),
    {
        let ghost d0 = rng.draws();
        let mut new_sol = sol.clone();
        new_sol.cost = 0;
        let ghost s = new_sol.palets@;
        let (from, to) = if change_palets {
            let from_truck = rng.next() % N_PALETS;
            let ghost r0 = rng.draws();
            let to_truck = rng.next() % N_PALETS;
            let ghost r1 = rng.draws();
            let to_truck = super::redraw_other(rng, to_truck, from_truck, N_PALETS);
            proof {
                let d = drawn_since(d0, rng.draws());
                assert(r0 =~= d0.push(r0.last()));
                assert(r1 =~= r0.push(r1.last()));
                assert(r1.is_prefix_of(rng.draws()));
                assert(d[0] == r0.last() && d[1] == r1.last());
                assert(d.skip(2) =~= drawn_since(r1, rng.draws()));
                assert(from_truck == drawn_below(d[0], N_PALETS));
                assert(redrawn(drawn_below(d[1], N_PALETS), d.skip(2), N_PALETS, |v: int| v == drawn_below(d[0], N_PALETS), to_truck as int));
            }
            (from_truck, to_truck)
        } else {
            let t = rng.next() % N_TRUCKS;
            proof {
                assert(rng.draws() =~= d0.push(rng.draws().last()));
                assert(t * TRUCK_CAP + TRUCK_CAP <= N_PALETS) by (nonlinear_arith)
                    requires
                        t < N_TRUCKS,
                ;
            }
            let truck = t * TRUCK_CAP;
            let from = (rng.next() % TRUCK_CAP) + truck;
            let mut to = (rng.next() % TRUCK_CAP) + truck;
            let mut fuel: usize = usize::MAX;
            while to == from && fuel > 0
                invariant
                    to < N_PALETS,
                    from < N_PALETS,
                    d0.is_prefix_of(rng.draws()),
                decreases fuel,
            {
                let ghost before = rng.draws();
                to = rng.next() % TRUCK_CAP;
                proof {
                    assert(rng.draws() =~= before.push(rng.draws().last()));
                }
                fuel = fuel - 1;
            }
            if to == from {
                to = if from + 1 < N_PALETS {
                    from + 1
                } else {
                    0
                };
            }
            (from, to)
        };
        let x = new_sol.palets[from];
        let y = new_sol.palets[to];
        new_sol.palets.set(from, y);
        new_sol.palets.set(to, x);
        proof {
            assert(new_sol.palets@ =~= swap_seq(s, from as int, to as int));
            if change_palets {
                let d = drawn_since(d0, rng.draws());
                assert(from == drawn_below(d[0], N_PALETS));
                assert(redrawn(drawn_below(d[1], N_PALETS), d.skip(2), N_PALETS, |v: int| v == drawn_below(d[0], N_PALETS), to as int));
                assert(s == sol.palets@);
                assert(new_sol.palets@ == swap_seq(sol.palets@, drawn_below(d[0], N_PALETS), to as int));
                assert(mm_swap_draws(d, sol.palets@, new_sol.palets@));
            }
            lemma_swap_perm(s, from as int, to as int);
            assert forall|i: int| 0 <= i < N_PALETS implies exists|j: int| 0 <= j < N_PALETS && #[trigger] new_sol.palets@[i] == s[j] by {
                if i == from {
                    assert(new_sol.palets@[i] == s[to as int]);
                } else if i == to {
                    assert(new_sol.palets@[i] == s[from as int]);
                } else {
                    assert(new_sol.palets@[i] == s[i]);
                }
            }
        }
        new_sol
    }
}

} // verus!
