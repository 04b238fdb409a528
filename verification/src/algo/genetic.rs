//! Genetic search over chromosomes: a chromosome lists the ids of the palets
//! (their positions in the palet list) in delivery order, `TRUCK_CAP` ids per
//! truck.

use super::model::{
    chrom_cost, chunked_cost, costs_fit, costs_ok, lemma_chunked_bound, lemma_max_leg, max_leg, leg,
    stable_order_of, key_before, distinct, is_perm, lemma_chunked_nonneg, lemma_complement_len,
    lemma_distinct_perm, lemma_perm_onto, ox_child, reverse_between, route_cost, stops_of, swap_seq,
    valid_palet, valid_palets, cost_upto, trucks_cost, sum_upto, lemma_sum_update,
    lemma_stable_order_onto, chunked_cells, route_cells, lemma_chunked_cells,
};
use super::{count_palets, redraw_other, route, stable_order, Costs, Palet, Palets, Trucks, N, N_PALETS, N_TRUCKS, TRUCK_CAP};
use crate::rng::RNG;
use vstd::prelude::*;

verus! {

broadcast use {vstd::multiset::group_multiset_properties, vstd::seq_lib::group_to_multiset_ensures};

/// Size of a tournament.
pub const K: usize = 2;

/// Number of best chromosomes carried over to the next generation.
pub const N_ELITISM: usize = 5;

/// Size of the population.
pub const N_CROMOSOMA: usize = 50;

/// Number of generations.
pub const N_GEN: usize = 50_000;

/// A pair is crossed where a draw of `next_unit_bits` (a fraction of 1 in
/// steps of `2^-53`) is at most 0.85: at most this many steps.
pub const CROSS_STEPS: u64 = 7656119366529843;

/// A pair is mutated where a draw of `next_unit_bits` is below 0.05: at most
/// this many steps.
pub const MUT_STEPS: u64 = 450359962737049;

/// A candidate plan and its cost; a cost of 0 means "not computed yet".
#[derive(Debug, Eq, Hash)]
pub struct Cromosoma {
    pub palets: Palets,
    pub cost: usize,
}

impl Clone for Cromosoma {
    fn clone(&self) -> (c: Self)
        ensures
            c.palets@ == self.palets@,
            c.cost == self.cost,
    {
        let palets = self.palets.clone();
        proof {
            assert(palets@ =~= self.palets@);
        }
        Cromosoma { palets, cost: self.cost }
    }
}

/// What pricing the chromosome `ids` reads is there: each id names a palet of
/// `dests` bound for a valid city, the matrix holds every cell that the
/// trucks' routes read, and the total fits a `usize`.
pub open spec fn priceable(m: Costs, dests: Seq<u8>, ids: Seq<u8>) -> bool {
    &&& forall|i: int| 0 <= i < ids.len() ==> (#[trigger] ids[i]) < dests.len()
        && valid_palet(dests[ids[i] as int])
    &&& chunked_cells(m, stops_of(ids, dests))
    &&& chrom_cost(m, dests, ids) <= usize::MAX
}

/// One step of `get_random` with the draw `d`: `id` is the id at the
/// position of `left` that `d` picks, and `next` is `left` without it.
pub open spec fn random_step(left: Seq<usize>, id: u8, next: Seq<usize>, d: u64) -> bool {
    let x = ((d as usize) % (left.len() as usize)) as int;
    &&& 0 < left.len()
    &&& left[x] == id as usize
    &&& next == left.remove(x)
}

/// The ids of `c` were taken, in that order, by steps of `get_random` from
/// all the ids in increasing order, step `k` with the draw `ds[k]`;
/// `lefts[k]` is what was left before step `k`.
pub open spec fn random_order(c: Seq<u8>, lefts: Seq<Seq<usize>>, ds: Seq<u64>) -> bool {
    &&& lefts.len() == c.len() + 1
    &&& ds.len() == c.len()
    &&& lefts[0] == Seq::new(N_PALETS as nat, |i: int| i as usize)
    &&& forall|k: int| 0 <= k < c.len() ==> #[trigger] random_step(lefts[k], c[k], lefts[k + 1], ds[k])
}

impl Cromosoma {
    /// Number of positions, up to the shorter of the two, whose ids differ in
    /// parity.
    pub fn diff(&self, other: &Cromosoma, palets: &Palets) -> (d: usize)
        ensures
            d == parity_diff(self.palets@, other.palets@, min_len(self.palets@, other.palets@)),
    {
        let n = if self.palets.len() < other.palets.len() {
            self.palets.len()
        } else {
            other.palets.len()
        };
        let mut d: usize = 0;
        let mut i: usize = 0;
        while i < n
            invariant
                i <= n,
                n == min_len(self.palets@, other.palets@),
                d == parity_diff(self.palets@, other.palets@, i as int),
                d <= i,
            decreases n - i,
        {
            let t = self.palets[i];
            let o = other.palets[i];
            let x: i32 = t as i32 - o as i32;
            let e = (x & 1) as usize;
            proof {
                assert((x & 1) == if t % 2 == o % 2 { 0i32 } else { 1i32 }) by (bit_vector)
                    requires
                        x == t as i32 - o as i32,
                ;
            }
            d = d + e;
            i = i + 1;
        }
        d
    }

    /// The cost of the plan, computed (and kept) where `cost` is 0, returned
    /// as kept otherwise. Only the palets that the ids name and the matrix
    /// cells that the trucks' routes read are looked at.
    pub fn cost(&mut self, palets: &Palets, cost_mat: &Costs) -> (c: usize)
        requires
            old(self).cost == 0 ==> priceable(*cost_mat, palets@, old(self).palets@),
        ensures
            final(self).palets@ == old(self).palets@,
            final(self).cost == c,
            old(self).cost != 0 ==> c == old(self).cost,
            old(self).cost == 0 ==> c == chrom_cost(*cost_mat, palets@, old(self).palets@),
            old(self).cost == 0 && old(self).palets@.len() == N_PALETS ==> forall|t: Trucks|
                #[trigger] plan_of(t, old(self).palets@, palets@) ==> c == trucks_cost(*cost_mat, t),
    {
        if self.cost != 0 {
            return self.cost;
        }
        proof {
            if self.palets@.len() == N_PALETS {
                assert forall|t: Trucks| #[trigger] plan_of(t, self.palets@, palets@) implies chrom_cost(*cost_mat, palets@, self.palets@)
                    == trucks_cost(*cost_mat, t) by {
                    lemma_chrom_cost_is_plan_cost(*cost_mat, palets@, self.palets@, t);
                }
            }
        }
        let ghost stops = stops_of(self.palets@, palets@);
        let mut total: usize = 0;
        let mut start: usize = 0;
        let len = self.palets.len();
        proof {
            assert(stops.skip(0) =~= stops);
        }
        while start < len
            invariant
                start <= len,
                len == self.palets@.len(),
                stops == stops_of(self.palets@, palets@),
                forall|i: int| 0 <= i < self.palets@.len() ==> (#[trigger] self.palets@[i]) < palets@.len()
                    && valid_palet(palets@[self.palets@[i] as int]),
                chunked_cells(*cost_mat, stops.skip(start as int)),
                chunked_cost(*cost_mat, stops) <= usize::MAX,
                total + chunked_cost(*cost_mat, stops.skip(start as int)) == chunked_cost(*cost_mat, stops),
            decreases len - start,
        {
            let end = if len - start > TRUCK_CAP {
                start + TRUCK_CAP
            } else {
                len
            };
            let mut chunk: Vec<Palet> = Vec::new();
            let mut i = start;
            while i < end
                invariant
                    start <= i <= end <= len,
                    len == self.palets@.len(),
                    stops == stops_of(self.palets@, palets@),
                    forall|j: int| 0 <= j < self.palets@.len() ==> (#[trigger] self.palets@[j]) < palets@.len()
                        && valid_palet(palets@[self.palets@[j] as int]),
                    chunk@ =~= stops.subrange(start as int, i as int),
                decreases end - i,
            {
                let id = self.palets[i];
                chunk.push(palets[id as usize]);
                i = i + 1;
            }
            let ghost rest = stops.skip(start as int);
            proof {
                if rest.len() <= TRUCK_CAP {
                    assert(chunk@ =~= rest);
                } else {
                    assert(chunk@ =~= rest.take(TRUCK_CAP as int));
                    assert(rest.skip(TRUCK_CAP as int) =~= stops.skip(end as int));
                    lemma_chunked_nonneg(*cost_mat, rest.skip(TRUCK_CAP as int));
                }
                assert forall|j: int| 0 <= j < chunk@.len() implies valid_palet(#[trigger] chunk@[j]) by {
                    assert(chunk@[j] == palets@[self.palets@[start + j] as int]);
                    assert(valid_palet(palets@[self.palets@[start + j] as int]));
                }
                assert(route_cells(*cost_mat, chunk@));
                if rest.len() > TRUCK_CAP {
                    assert(chunked_cells(*cost_mat, stops.skip(end as int)));
                }
            }
            let c = route(cost_mat, chunk.as_slice());
            total = total + c;
            start = end;
        }
        proof {
            assert(stops.skip(start as int) =~= Seq::<u8>::empty());
        }
        self.cost = total;
        total
    }

    /// A chromosome listing the ids `0..N_PALETS` in random order: each next id
    /// is drawn at random among those not yet listed (`random_order`).
    pub fn get_random(rng: &mut RNG) -> (c: Cromosoma)
        ensures
            is_perm(c.palets@, N_PALETS as int),
            c.cost == 0,
            old(rng).draws().is_prefix_of(final(rng).draws()),
            exists|lefts: Seq<Seq<usize>>| #[trigger] random_order(
                c.palets@,
                lefts,
                final(rng).draws().skip(old(rng).draws().len() as int),
            ),
    {
        let ghost d0 = rng.draws();
        let mut cromosome_palets: Vec<Palet> = Vec::new();
        let mut palets: Vec<usize> = Vec::new();
        let mut i: usize = 0;
        while i < N_PALETS
            invariant
                i <= N_PALETS,
                palets@.len() == i,
                forall|j: int| 0 <= j < i ==> #[trigger] palets@[j] == j,
            decreases N_PALETS - i,
        {
            palets.push(i);
            i = i + 1;
        }
        let ghost mut lefts: Seq<Seq<usize>> = seq![palets@];
        proof {
            assert(palets@ =~= Seq::new(N_PALETS as nat, |i: int| i as usize));
        }
        while palets.len() > 0
            invariant
                d0 == old(rng).draws(),
                d0.is_prefix_of(rng.draws()),
                rng.draws().len() == d0.len() + cromosome_palets@.len(),
                lefts.len() == cromosome_palets@.len() + 1,
                lefts[cromosome_palets@.len() as int] == palets@,
                random_order(cromosome_palets@, lefts, rng.draws().skip(d0.len() as int)),
                cromosome_palets@.len() + palets@.len() == N_PALETS,
                distinct(cromosome_palets@),
                forall|j: int| 0 <= j < cromosome_palets@.len() ==> (#[trigger] cromosome_palets@[j]) < N_PALETS,
                forall|j: int| 0 <= j < palets@.len() ==> (#[trigger] palets@[j]) < N_PALETS,
                forall|a: int, b: int| 0 <= a < palets@.len() && 0 <= b < palets@.len() && a != b ==> #[trigger] palets@[a] != #[trigger] palets@[b],
                forall|a: int, b: int| 0 <= a < palets@.len() && 0 <= b < cromosome_palets@.len() ==> #[trigger] palets@[a] != #[trigger] cromosome_palets@[b] as usize,
            decreases palets@.len(),
        {
            let ghost dprev = rng.draws();
            let next = rng.next() % palets.len();
            let ghost dnow = rng.draws();
            let ghost before = palets@;
            let p = palets.remove(next);
            let ghost cbefore = cromosome_palets@;
            let ghost old_lefts = lefts;
            cromosome_palets.push(p as Palet);
            proof {
                assert(dnow =~= dprev.push(dnow.last()));
                lefts = lefts.push(palets@);
                let dsn = dnow.skip(d0.len() as int);
                let dsp = dprev.skip(d0.len() as int);
                let k = cbefore.len() as int;
                assert(dsn[k] == dnow.last());
                assert(palets@ =~= before.remove(next as int));
                assert(random_step(before, p as u8, palets@, dsn[k]));
                assert forall|j: int| 0 <= j < cromosome_palets@.len() implies #[trigger] random_step(lefts[j], cromosome_palets@[j], lefts[j + 1], dsn[j]) by {
                    if j < k {
                        assert(lefts[j] == old_lefts[j] && lefts[j + 1] == old_lefts[j + 1]);
                        assert(cromosome_palets@[j] == cbefore[j]);
                        assert(dsn[j] == dsp[j]);
                        assert(random_step(old_lefts[j], cbefore[j], old_lefts[j + 1], dsp[j]));
                    }
                }
                assert forall|a: int| 0 <= a < palets@.len() implies #[trigger] palets@[a] == if a < next { before[a] } else { before[a + 1] } by {}
                assert forall|a: int, b: int| 0 <= a < palets@.len() && 0 <= b < cromosome_palets@.len() implies #[trigger] palets@[a] != #[trigger] cromosome_palets@[b] as usize by {
                    if b < cbefore.len() {
                        assert(cromosome_palets@[b] == cbefore[b]);
                    } else {
                        if a < next {
                            assert(before[a] != before[next as int]);
                        } else {
                            assert(before[a + 1] != before[next as int]);
                        }
                    }
                }
                assert forall|a: int, b: int| 0 <= a < cromosome_palets@.len() && 0 <= b < cromosome_palets@.len() && a != b implies #[trigger] cromosome_palets@[a] != #[trigger] cromosome_palets@[b] by {
                    if a < cbefore.len() && b < cbefore.len() {
                    } else if a < cbefore.len() {
                        assert(before[next as int] != cbefore[a] as usize);
                    } else {
                        assert(before[next as int] != cbefore[b] as usize);
                    }
                }
            }
        }
        proof {
            lemma_distinct_perm(cromosome_palets@, N_PALETS as int);
            assert(random_order(cromosome_palets@, lefts, rng.draws().skip(d0.len() as int)));
        }
        let c = Cromosoma { palets: cromosome_palets, cost: 0 };
        proof {
            assert(random_order(c.palets@, lefts, rng.draws().skip(old(rng).draws().len() as int)));
        }
        c
    }

    /// A chromosome with the given ids, its cost not yet computed.
    pub fn new_with(palets: Palets) -> (c: Cromosoma)
        ensures
            c.palets@ == palets@,
            c.cost == 0,
    {
        Cromosoma { palets, cost: 0 }
    }
}

impl Default for Cromosoma {
    fn default() -> (c: Self)
        ensures
            c.palets@ == Seq::new(N_PALETS as nat, |i: int| 0u8),
            c.cost == 0,
    {
        let palets = vec![0u8; N_PALETS];
        proof {
            assert(palets@ =~= Seq::new(N_PALETS as nat, |i: int| 0u8));
        }
        Cromosoma { palets, cost: 0 }
    }
}

/// How a child chromosome mutates.
pub enum MutType {
    /// Two positions exchange their ids.
    Simple,
    /// A run of positions is reversed.
    #[allow(dead_code)]
    Reversed,
}

/// The exchange of `Simple` took its draws after `before`, giving `after`:
/// `c` is `s` with two different positions exchanged, the first the one that
/// the first draw picks; where the second draw picks another, that is the
/// second and no more is drawn.
pub open spec fn simple_draws(before: Seq<u64>, after: Seq<u64>, s: Seq<u8>, c: Seq<u8>) -> bool {
    let n = before.len() as int;
    let a = drawn_cut(after[n]);
    &&& after.len() >= n + 2
    &&& exists|b: int| 0 <= b < N_PALETS && b != a && c == #[trigger] swap_seq(s, a, b)
        && (drawn_cut(after[n + 1]) != a ==> b == drawn_cut(after[n + 1]) && after.len() == n + 2)
}

/// The draws of an exchange stay its draws after any draws before them.
proof fn lemma_simple_draws_shift(pre: Seq<u64>, before: Seq<u64>, after: Seq<u64>, s: Seq<u8>, c: Seq<u8>)
    requires
        simple_draws(pre + before, pre + after, s, c),
    ensures
        simple_draws(before, after, s, c),
{
    let p = pre.len() as int;
    let n = before.len() as int;
    assert((pre + after)[p + n] == after[n]);
    assert((pre + after)[p + n + 1] == after[n + 1]);
    let a = drawn_cut(after[n]);
    let b = choose|b: int| 0 <= b < N_PALETS && b != a && c == #[trigger] swap_seq(s, a, b)
        && (drawn_cut((pre + after)[p + n + 1]) != a ==> b == drawn_cut((pre + after)[p + n + 1]) && (pre + after).len() == p + n + 2);
    assert(c == swap_seq(s, a, b));
}

impl MutType {
    /// Mutates `child`: `Simple` exchanges the ids at two different random
    /// positions; `Reversed` reverses the run between two random positions.
    /// The cost is left as it was.
    pub fn apply(&self, child: &mut Cromosoma, rng: &mut RNG)
        requires
            old(child).palets@.len() >= N_PALETS,
        ensures
            final(child).cost == old(child).cost,
            *self is Simple ==> exists|a: int, b: int|
                0 <= a < N_PALETS && 0 <= b < N_PALETS && a != b && final(child).palets@ == #[trigger] swap_seq(
                    old(child).palets@,
                    a,
                    b,
                ),
            *self is Reversed ==> exists|lo: int, hi: int|
                0 <= lo <= hi < N_PALETS && final(child).palets@ == #[trigger] reverse_between(
                    old(child).palets@,
                    lo,
                    hi,
                ),
            is_perm(old(child).palets@, N_PALETS as int) ==> is_perm(final(child).palets@, N_PALETS as int),
            final(child).palets@.to_multiset() == old(child).palets@.to_multiset(),
            old(rng).draws().is_prefix_of(final(rng).draws()),
            *self is Simple ==> simple_draws(old(rng).draws(), final(rng).draws(), old(child).palets@, final(child).palets@),
    {
        let ghost s = child.palets@;
        let ghost d0 = rng.draws();
        match self {
            MutType::Simple => {
                let palet_a = rng.next() % N_PALETS;
                let ghost d1 = rng.draws();
                let palet_b = rng.next() % N_PALETS;
                proof {
                    assert(d1 =~= d0.push(d1.last()));
                    assert(rng.draws() =~= d1.push(rng.draws().last()));
                    assert(d0.is_prefix_of(rng.draws()));
                }
                let ghost d2 = rng.draws();
                let palet_b = redraw_other(rng, palet_b, palet_a, N_PALETS);
                proof {
                    let n = d0.len() as int;
                    assert(d2[n] == d1.last());
                    assert(d2[n + 1] == d2.last());
                    assert(rng.draws()[n] == d2[n]);
                    assert(rng.draws()[n + 1] == d2[n + 1]);
                    assert(drawn_cut(rng.draws()[n]) == palet_a);
                }
                let x = child.palets[palet_a];
                let y = child.palets[palet_b];
                child.palets.set(palet_a, y);
                child.palets.set(palet_b, x);
                proof {
                    assert(child.palets@ =~= swap_seq(s, palet_a as int, palet_b as int));
                    lemma_swap_perm(s, palet_a as int, palet_b as int);
                }
            },
            MutType::Reversed => {
                let mut start = rng.next() % N_PALETS;
                let ghost d1 = rng.draws();
                let mut end = rng.next() % N_PALETS;
                proof {
                    assert(d1 =~= d0.push(d1.last()));
                    assert(rng.draws() =~= d1.push(rng.draws().last()));
                    assert(d0.is_prefix_of(rng.draws()));
                }
                if start > end {
                    let t = start;
                    start = end;
                    end = t;
                }
                let ghost lo = start as int;
                let ghost hi = end as int;
                while end > start
                    invariant
                        lo <= start,
                        end <= hi < N_PALETS,
                        start <= end + 1,
                        start - lo == hi - end,
                        child.cost == old(child).cost,
                        child.palets@.len() == s.len(),
                        s.len() >= N_PALETS,
                        forall|i: int| 0 <= i < s.len() ==> #[trigger] child.palets@[i] == if (lo <= i < start) || (end < i <= hi) {
                            s[lo + hi - i]
                        } else {
                            s[i]
                        },
                        child.palets@.to_multiset() == s.to_multiset(),
                    decreases end + 1 - start,
                {
                    let ghost before = child.palets@;
                    let x = child.palets[start];
                    let y = child.palets[end];
                    child.palets.set(start, y);
                    child.palets.set(end, x);
                    proof {
                        assert(child.palets@ =~= swap_seq(before, start as int, end as int));
                        lemma_swap_perm(before, start as int, end as int);
                    }
                    start = start + 1;
                    end = end - 1;
                }
                proof {
                    assert(child.palets@ =~= reverse_between(s, lo, hi));
                    lemma_reverse_perm(s, lo, hi);
                }
            },
        }
    }
}

pub(crate) proof fn lemma_swap_perm(s: Seq<u8>, a: int, b: int)
    requires
        0 <= a < s.len(),
        0 <= b < s.len(),
    ensures
        swap_seq(s, a, b).to_multiset() == s.to_multiset(),
        is_perm(s, s.len() as int) ==> is_perm(swap_seq(s, a, b), s.len() as int),
{
    let mid = s.update(a, s[b]);
    vstd::seq_lib::to_multiset_update(s, a, s[b]);
    vstd::seq_lib::to_multiset_update(mid, b, s[a]);
    vstd::seq_lib::to_multiset_contains(s, s[a]);
    assert(s.contains(s[a]));
    assert(swap_seq(s, a, b).to_multiset() =~= s.to_multiset());
    if is_perm(s, s.len() as int) {
        let t = swap_seq(s, a, b);
        assert forall|i: int, j: int| 0 <= i < j < t.len() implies #[trigger] t[i] != #[trigger] t[j] by {
            let fi = if i == b { a } else if i == a { b } else { i };
            let fj = if j == b { a } else if j == a { b } else { j };
            assert(t[i] == s[fi]);
            assert(t[j] == s[fj]);
            if fi < fj {
                assert(s[fi] != s[fj]);
            } else {
                assert(s[fj] != s[fi]);
            }
        }
    }
}

proof fn lemma_reverse_perm(s: Seq<u8>, lo: int, hi: int)
    requires
        0 <= lo <= hi < s.len(),
    ensures
        is_perm(s, s.len() as int) ==> is_perm(reverse_between(s, lo, hi), s.len() as int),
{
    if is_perm(s, s.len() as int) {
        let t = reverse_between(s, lo, hi);
        assert forall|i: int, j: int| 0 <= i < j < t.len() implies #[trigger] t[i] != #[trigger] t[j] by {
            let fi = if lo <= i <= hi { lo + hi - i } else { i };
            let fj = if lo <= j <= hi { lo + hi - j } else { j };
            if fi < fj {
                assert(s[fi] != s[fj]);
            } else {
                assert(s[fj] != s[fi]);
            }
        }
    }
}

/// How two parents make two children.
#[allow(dead_code)]
pub enum CrossType {
    /// Order crossover.
    OX,
    /// Alternating edges crossover.
    AEX,
}

impl CrossType {
    /// Order crossover: the child keeps `parent1`'s run `start..end` in place
    /// and takes the other ids in the order `parent2` lists them.
    fn cross_ox(start: usize, end: usize, parent1: &Cromosoma, parent2: &Cromosoma) -> (c: Cromosoma)
        requires
            start <= end <= N_PALETS,
            is_perm(parent1.palets@, N_PALETS as int),
            is_perm(parent2.palets@, N_PALETS as int),
        ensures
            c.palets@ == ox_child(parent1.palets@, parent2.palets@, start as int, end as int),
            is_perm(c.palets@, N_PALETS as int),
            c.cost == 0,
    {
        let ghost p1 = parent1.palets@;
        let ghost p2 = parent2.palets@;
        let ghost seg = p1.subrange(start as int, end as int);
        let ghost pred = |x: u8| !seg.contains(x);
        let mut child1 = Cromosoma::default();
        let mut i = start;
        while i < end
            invariant
                start <= i <= end <= N_PALETS,
                child1.palets@.len() == N_PALETS,
                child1.cost == 0,
                forall|j: int| start <= j < i ==> #[trigger] child1.palets@[j] == p1[j],
                p1 == parent1.palets@,
                is_perm(p1, N_PALETS as int),
            decreases end - i,
        {
            child1.palets.set(i, parent1.palets[i]);
            i = i + 1;
        }
        let mut mask = [true; N_PALETS];
        let mut k = start;
        while k < end
            invariant
                start <= k <= end <= N_PALETS,
                p1 == parent1.palets@,
                is_perm(p1, N_PALETS as int),
                seg == p1.subrange(start as int, end as int),
                forall|v: int| 0 <= v < N_PALETS ==> #[trigger] mask[v] == !seg.take(k - start).contains(v as u8),
            decreases end - k,
        {
            let ghost before = seg.take(k - start);
            let ghost old_mask = mask;
            let pk = parent1.palets[k];
            mask[pk as usize] = false;
            proof {
                assert(seg.take(k + 1 - start) =~= before.push(p1[k as int]));
                assert forall|v: int| 0 <= v < N_PALETS implies #[trigger] mask[v] == !seg.take(k + 1 - start).contains(v as u8) by {
                    if v == pk as int {
                        assert(seg.take(k + 1 - start)[k - start] == pk);
                    } else {
                        assert(mask[v] == old_mask[v]);
                        assert((v as u8) != pk);
                        let sk = seg.take(k + 1 - start);
                        if sk.contains(v as u8) {
                            let w = choose|w: int| 0 <= w < sk.len() && #[trigger] sk[w] == v as u8;
                            assert(before[w] == v as u8);
                        }
                    }
                }
            }
            k = k + 1;
        }
        proof {
            assert(seg.take(end - start) =~= seg);
        }
        let mut rest: Vec<Palet> = Vec::new();
        let mut j: usize = 0;
        while j < N_PALETS
            invariant
                j <= N_PALETS,
                p2 == parent2.palets@,
                is_perm(p2, N_PALETS as int),
                forall|v: int| 0 <= v < N_PALETS ==> #[trigger] mask[v] == !seg.contains(v as u8),
                pred == (|x: u8| !seg.contains(x)),
                rest@ == p2.take(j as int).filter(pred),
                distinct(rest@),
                forall|a: int| 0 <= a < rest@.len() ==> !seg.contains(#[trigger] rest@[a]) && rest@[a] < N_PALETS,
                forall|a: int| 0 <= a < rest@.len() ==> exists|b: int| 0 <= b < j && p2[b] == #[trigger] rest@[a],
                forall|b: int| 0 <= b < j && !seg.contains(p2[b]) ==> rest@.contains(#[trigger] p2[b]),
            decreases N_PALETS - j,
        {
            let p = parent2.palets[j];
            let ghost before = rest@;
            proof {
                assert(p2.take(j + 1) =~= p2.take(j as int).push(p));
                p2.take(j as int).lemma_filter_push(p, pred);
                assert(mask[p as int] == !seg.contains(p));
                assert(pred(p) == !seg.contains(p));
            }
            if mask[p as usize] {
                rest.push(p);
                proof {
                    assert forall|a: int| 0 <= a < before.len() implies before[a] != p by {
                        let b = choose|b: int| 0 <= b < j && p2[b] == before[a];
                        assert(p2[b] != p2[j as int]);
                    }
                    assert(rest@[before.len() as int] == p);
                }
            }
            proof {
                assert forall|b: int| 0 <= b < j + 1 && !seg.contains(p2[b]) implies rest@.contains(#[trigger] p2[b]) by {
                    if b < j {
                        let a = choose|a: int| 0 <= a < before.len() && before[a] == p2[b];
                        assert(rest@[a] == p2[b]);
                    } else {
                        assert(rest@[rest@.len() - 1] == p);
                    }
                }
                assert forall|a: int| 0 <= a < rest@.len() implies exists|b: int| 0 <= b < j + 1 && p2[b] == #[trigger] rest@[a] by {
                    if a < before.len() {
                        let b = choose|b: int| 0 <= b < j && p2[b] == before[a];
                        assert(p2[b] == rest@[a]);
                    } else {
                        assert(p2[j as int] == rest@[a]);
                    }
                }
            }
            j = j + 1;
        }
        proof {
            assert(p2.take(N_PALETS as int) =~= p2);
            assert(distinct(seg)) by {
                assert forall|a: int, b: int| 0 <= a < seg.len() && 0 <= b < seg.len() && a != b implies #[trigger] seg[a] != #[trigger] seg[b] by {
                    if a < b {
                        assert(p1[start + a] != p1[start + b]);
                    } else {
                        assert(p1[start + b] != p1[start + a]);
                    }
                }
            }
            assert forall|v: u8| (v as int) < N_PALETS implies rest@.contains(v) || seg.contains(v) by {
                lemma_perm_onto(p2, N_PALETS as int, v as int);
                let b = choose|b: int| 0 <= b < p2.len() && p2[b] == v;
                if !seg.contains(v) {
                    assert(rest@.contains(p2[b]));
                }
            }
            assert forall|a: int, b: int| 0 <= a < rest@.len() && 0 <= b < seg.len() implies #[trigger] rest@[a] != #[trigger] seg[b] by {
                assert(!seg.contains(rest@[a]));
            }
            lemma_complement_len(rest@, seg, N_PALETS as int);
        }
        let mut r: usize = 0;
        while r < start
            invariant
                r <= start <= end <= N_PALETS,
                rest@.len() == N_PALETS - (end - start),
                child1.palets@.len() == N_PALETS,
                child1.cost == 0,
                forall|a: int| 0 <= a < r ==> #[trigger] child1.palets@[a] == rest@[a],
                forall|a: int| start <= a < end ==> #[trigger] child1.palets@[a] == p1[a],
            decreases start - r,
        {
            child1.palets.set(r, rest[r]);
            r = r + 1;
        }
        let mut q: usize = end;
        while q < N_PALETS
            invariant
                start <= end <= q <= N_PALETS,
                rest@.len() == N_PALETS - (end - start),
                child1.palets@.len() == N_PALETS,
                child1.cost == 0,
                forall|a: int| 0 <= a < start ==> #[trigger] child1.palets@[a] == rest@[a],
                forall|a: int| start <= a < end ==> #[trigger] child1.palets@[a] == p1[a],
                forall|a: int| end <= a < q ==> #[trigger] child1.palets@[a] == rest@[a - (end - start)],
            decreases N_PALETS - q,
        {
            child1.palets.set(q, rest[q - (end - start)]);
            q = q + 1;
        }
        proof {
            let rs = p2.filter(pred);
            assert(child1.palets@ =~= ox_child(p1, p2, start as int, end as int));
            let c = child1.palets@;
            assert forall|a: int| 0 <= a < c.len() implies (#[trigger] c[a]) < N_PALETS by {
                if a < start || a >= end {
                } else {
                    assert(c[a] == p1[a]);
                }
            }
            assert(distinct(c)) by {
                assert forall|a: int, b: int| 0 <= a < c.len() && 0 <= b < c.len() && a != b implies #[trigger] c[a] != #[trigger] c[b] by {
                    let ia = if a < start { a } else if a >= end { a - (end - start) } else { -1 };
                    let ib = if b < start { b } else if b >= end { b - (end - start) } else { -1 };
                    if ia >= 0 && ib >= 0 {
                        assert(rs[ia] != rs[ib]);
                    } else if ia >= 0 {
                        assert(seg[b - start] == c[b]);
                        assert(rs[ia] != seg[b - start]);
                    } else if ib >= 0 {
                        assert(seg[a - start] == c[a]);
                        assert(rs[ib] != seg[a - start]);
                    } else {
                        assert(seg[a - start] != seg[b - start]);
                    }
                }
            }
            lemma_distinct_perm(c, N_PALETS as int);
        }
        child1
    }
}

/// Each value below `N_PALETS` sits at `wh[v]` in `parent`.
pub open spec fn locates(wh: Seq<usize>, parent: Seq<u8>) -> bool {
    &&& wh.len() == N_PALETS
    &&& forall|v: int| 0 <= v < N_PALETS ==> (#[trigger] wh[v]) < N_PALETS && parent[wh[v] as int] == v
}

/// A slot of `parent` is closed exactly when its id is already in `c`.
pub open spec fn exact_mask(mask: Seq<bool>, parent: Seq<u8>, c: Seq<u8>) -> bool {
    forall|j: int| 0 <= j < N_PALETS ==> (!(#[trigger] mask[j]) <==> c.contains(parent[j]))
}

/// As `exact_mask`, except that the slot of the last id of `c` may still be
/// open.
pub open spec fn loose_mask(mask: Seq<bool>, parent: Seq<u8>, c: Seq<u8>) -> bool {
    forall|j: int|
        0 <= j < N_PALETS ==> (!(#[trigger] mask[j]) ==> c.contains(parent[j])) && (c.contains(parent[j])
            && parent[j] != c.last() ==> !mask[j])
}

/// Every id from the third on follows the edge of the parent whose turn it
/// is (`p2` at even positions, `p1` at odd ones): where the previous id sits
/// at `i` in that parent and the id at `i + 1` is not yet taken, it comes next.
pub open spec fn follows_edges(c: Seq<u8>, p1: Seq<u8>, p2: Seq<u8>) -> bool {
    &&& forall|k: int, i: int|
        1 <= k < c.len() - 1 && k % 2 == 1 && 0 <= i < N_PALETS - 1 && #[trigger] p2[i] == #[trigger] c[k]
            && !c.take(k + 1).contains(p2[i + 1]) ==> c[k + 1] == p2[i + 1]
    &&& forall|k: int, i: int|
        1 <= k < c.len() - 1 && k % 2 == 0 && 0 <= i < N_PALETS - 1 && #[trigger] p1[i] == #[trigger] c[k]
            && !c.take(k + 1).contains(p1[i + 1]) ==> c[k + 1] == p1[i + 1]
}

/// Step `k` of the alternating edges crossover (from the third id on), on
/// `parent`, the parent whose turn it is, with the search cursor at `cur`
/// before it and at `next` after it: where the id after `c[k - 1]` in
/// `parent` is already taken or there is none, `c[k]` is the first id not yet
/// taken met going round `parent` from `cur`, and the cursor moves just past
/// it; otherwise the cursor stays.
pub open spec fn aex_scan_step(c: Seq<u8>, parent: Seq<u8>, k: int, cur: int, next: int) -> bool {
    if exists|i: int| 0 <= i < N_PALETS - 1 && #[trigger] parent[i] == c[k - 1] && !c.take(k).contains(parent[i + 1]) {
        next == cur
    } else {
        exists|e: int|
            0 <= e < N_PALETS && c[k] == #[trigger] parent[e] && !c.take(k).contains(parent[e]) && next == (e + 1)
                % (N_PALETS as int) && forall|d: int|
                0 <= d < cyclic_dist(cur, e) ==> c.take(k).contains(#[trigger] parent[(cur + d) % (N_PALETS as int)])
    }
}

/// The searches of the crossover that made `c` from `p1` and `p2` (`p2` on
/// even steps, `p1` on odd ones) went as `aex_scan_step` says, the cursor
/// starting at 0; `cursors[k]` is the cursor before step `k`.
pub open spec fn aex_scans(c: Seq<u8>, p1: Seq<u8>, p2: Seq<u8>, cursors: Seq<int>) -> bool {
    &&& cursors.len() == c.len() + 1
    &&& cursors[2] == 0
    &&& forall|k: int|
        2 <= k < c.len() ==> #[trigger] aex_scan_step(c, aex_turn(p1, p2, k), k, cursors[k], cursors[k + 1])
}

/// The parent whose turn step `k` of the crossover is: `p2` on even steps,
/// `p1` on odd ones.
pub open spec fn aex_turn(p1: Seq<u8>, p2: Seq<u8>, k: int) -> Seq<u8> {
    if k % 2 == 0 {
        p2
    } else {
        p1
    }
}

/// Cyclic distance from `c` forward to `j` among `0..N_PALETS`.
pub open spec fn cyclic_dist(c: int, j: int) -> int {
    if j >= c {
        j - c
    } else {
        j + N_PALETS - c
    }
}

/// The first open slot at or after `*cursor`, going round `0..N_PALETS`; the
/// cursor moves just past it.
fn next_open(mask: &[bool; N_PALETS], cursor: &mut usize) -> (e: usize)
    requires
        *old(cursor) < N_PALETS,
        exists|j: int| 0 <= j < N_PALETS && #[trigger] mask[j],
    ensures
        e < N_PALETS,
        mask[e as int],
        *final(cursor) == (e + 1) % (N_PALETS as int),
        forall|d: int| 0 <= d < cyclic_dist(*old(cursor) as int, e as int) ==> !(#[trigger] mask[(*old(cursor) + d) % (N_PALETS as int)]),
{
    let ghost j = choose|j: int| 0 <= j < N_PALETS && #[trigger] mask[j];
    let ghost c0 = *cursor as int;
    let mut e = *cursor;
    while !mask[e]
        invariant
            e < N_PALETS,
            0 <= j < N_PALETS,
            mask[j],
            0 <= c0 < N_PALETS,
            cyclic_dist(c0, e as int) <= cyclic_dist(c0, j),
            forall|d: int| 0 <= d < cyclic_dist(c0, e as int) ==> !(#[trigger] mask[(c0 + d) % (N_PALETS as int)]),
            (c0 + cyclic_dist(c0, e as int)) % (N_PALETS as int) == e,
        decreases cyclic_dist(e as int, j),
    {
        proof {
            assert(e != j);
        }
        e = (e + 1) % N_PALETS;
    }
    *cursor = (e + 1) % N_PALETS;
    e
}

/// One step of the alternating edges crossover on parent `parent` (positions
/// `wh`, open slots `mask`), after the id `c.last()`: the id after it in the
/// parent when that one is still open, else the first open one from the
/// cursor on.
fn aex_step(
    mask: &mut [bool; N_PALETS],
    parent: &Vec<u8>,
    wh: &[usize; N_PALETS],
    last: u8,
    cursor: &mut usize,
    Ghost(c): Ghost<Seq<u8>>,
) -> (v: u8)
    requires
        is_perm(parent@, N_PALETS as int),
        locates(wh@, parent@),
        loose_mask(old(mask)@, parent@, c),
        c.len() > 0,
        c.len() < N_PALETS,
        last == c.last(),
        distinct(c),
        forall|i: int| 0 <= i < c.len() ==> (#[trigger] c[i]) < N_PALETS,
        *old(cursor) < N_PALETS,
    ensures
        v < N_PALETS,
        !c.contains(v),
        exact_mask(final(mask)@, parent@, c.push(v)),
        *final(cursor) < N_PALETS,
        forall|i: int| 0 <= i < N_PALETS - 1 && #[trigger] parent@[i] == last && !c.contains(parent@[i + 1]) ==> v == parent@[i + 1],
        (exists|i: int| 0 <= i < N_PALETS - 1 && #[trigger] parent@[i] == last && !c.contains(parent@[i + 1])) ==> *final(cursor) == *old(cursor),
        !(exists|i: int| 0 <= i < N_PALETS - 1 && #[trigger] parent@[i] == last && !c.contains(parent@[i + 1])) ==> exists|e: int|
            0 <= e < N_PALETS && v == #[trigger] parent@[e] && !c.contains(parent@[e]) && *final(cursor) == (e + 1) % (N_PALETS as int)
                && forall|d: int| 0 <= d < cyclic_dist(*old(cursor) as int, e) ==> c.contains(#[trigger] parent@[(*old(cursor) + d) % (N_PALETS as int)]),
{
    let pos = wh[last as usize];
    let ghost m0 = mask@;
    mask[pos] = false;
    proof {
        assert(exact_mask(mask@, parent@, c)) by {
            assert forall|j: int| 0 <= j < N_PALETS implies (!(#[trigger] mask@[j]) <==> c.contains(parent@[j])) by {
                if j != pos {
                    assert(mask@[j] == m0[j]);
                    if parent@[j] == last {
                        assert(parent@[pos as int] == last);
                        if j < pos {
                            assert(parent@[j] != parent@[pos as int]);
                        } else {
                            assert(parent@[pos as int] != parent@[j]);
                        }
                    }
                } else {
                    assert(c[c.len() - 1] == last);
                }
            }
        }
    }
    let next = pos + 1;
    let ghost cur0 = *cursor as int;
    let ghost m_exact = mask@;
    proof {
        assert(parent@[pos as int] == last);
        assert forall|i: int| 0 <= i < N_PALETS - 1 && #[trigger] parent@[i] == last implies i == pos by {
            if i != pos {
                if i < pos {
                    assert(parent@[i] != parent@[pos as int]);
                } else {
                    assert(parent@[pos as int] != parent@[i]);
                }
            }
        }
    }
    let e = if next < N_PALETS && mask[next] {
        proof {
            assert(!c.contains(parent@[next as int]));
        }
        next
    } else {
        proof {
            if forall|j: int| 0 <= j < N_PALETS ==> !(#[trigger] mask@[j]) {
                assert forall|x: u8| (x as int) < N_PALETS implies c.contains(x) by {
                    assert(!mask@[wh@[x as int] as int]);
                }
                super::model::lemma_full_len(c, N_PALETS as int);
            }
            if exists|i: int| 0 <= i < N_PALETS - 1 && #[trigger] parent@[i] == last && !c.contains(parent@[i + 1]) {
                let i = choose|i: int| 0 <= i < N_PALETS - 1 && #[trigger] parent@[i] == last && !c.contains(parent@[i + 1]);
                assert(i == pos);
                assert(false);
            }
        }
        let e0 = next_open(mask, cursor);
        proof {
            assert forall|d: int| 0 <= d < cyclic_dist(cur0, e0 as int) implies c.contains(#[trigger] parent@[(cur0 + d) % (N_PALETS as int)]) by {
                assert(!m_exact[(cur0 + d) % (N_PALETS as int)]);
            }
        }
        e0
    };
    let ghost m1 = mask@;
    mask[e] = false;
    let v = parent[e];
    proof {
        assert(exact_mask(mask@, parent@, c.push(v))) by {
            assert forall|j: int| 0 <= j < N_PALETS implies (!(#[trigger] mask@[j]) <==> c.push(v).contains(parent@[j])) by {
                if j != e {
                    if j < e {
                        assert(parent@[j] != parent@[e as int]);
                    } else {
                        assert(parent@[e as int] != parent@[j]);
                    }
                    assert(mask@[j] == m1[j]);
                    if c.push(v).contains(parent@[j]) {
                        let w = choose|w: int| 0 <= w < c.push(v).len() && c.push(v)[w] == parent@[j];
                        assert(c[w] == parent@[j]);
                    }
                    if c.contains(parent@[j]) {
                        let w = choose|w: int| 0 <= w < c.len() && c[w] == parent@[j];
                        assert(c.push(v)[w] == parent@[j]);
                    }
                } else {
                    assert(c.push(v)[c.len() as int] == v);
                }
            }
        }
        assert forall|i: int| 0 <= i < N_PALETS - 1 && #[trigger] parent@[i] == last && !c.contains(parent@[i + 1]) implies v == parent@[i + 1] by {
            assert(parent@[pos as int] == last);
            if i != pos {
                if i < pos {
                    assert(parent@[i] != parent@[pos as int]);
                } else {
                    assert(parent@[pos as int] != parent@[i]);
                }
            }
        }
        if !(exists|i: int| 0 <= i < N_PALETS - 1 && #[trigger] parent@[i] == last && !c.contains(parent@[i + 1])) {
            assert(!m_exact[e as int] ==> c.contains(parent@[e as int]));
            assert(!c.contains(parent@[e as int]));
        }
    }
    v
}

impl CrossType {
    /// Alternating edges crossover: the child starts with `parent1`'s first two
    /// ids; then, taking turns from `parent2`, each next id is the one that
    /// follows the previous id in that parent, unless it is already taken, in
    /// which case it is the first id not yet taken met going round that
    /// parent from where the last such search stopped.
    pub fn cross_aex(parent1: &Cromosoma, parent2: &Cromosoma) -> (c: Cromosoma)
        requires
            is_perm(parent1.palets@, N_PALETS as int),
            is_perm(parent2.palets@, N_PALETS as int),
        ensures
            is_perm(c.palets@, N_PALETS as int),
            c.cost == 0,
            c.palets@[0] == parent1.palets@[0],
            c.palets@[1] == parent1.palets@[1],
            follows_edges(c.palets@, parent1.palets@, parent2.palets@),
            exists|cursors: Seq<int>| #[trigger] aex_scans(c.palets@, parent1.palets@, parent2.palets@, cursors),
            forall|d: Seq<u8>| #[trigger] aex_child(d, parent1.palets@, parent2.palets@) ==> d == c.palets@,
            parent1.palets@ == parent2.palets@ ==> c.palets@ == parent1.palets@,
    {
        let ghost p1 = parent1.palets@;
        let ghost p2 = parent2.palets@;
        let mut cromosoma: Vec<u8> = Vec::with_capacity(N_PALETS);
        let mut mask_p1 = [true; N_PALETS];
        let mut mask_p2 = [true; N_PALETS];
        let mut where_p1 = [0usize; N_PALETS];
        let mut where_p2 = [0usize; N_PALETS];
        let mut i: usize = 0;
        while i < N_PALETS
            invariant
                i <= N_PALETS,
                p1 == parent1.palets@,
                p2 == parent2.palets@,
                is_perm(p1, N_PALETS as int),
                is_perm(p2, N_PALETS as int),
                forall|a: int| 0 <= a < i ==> #[trigger] where_p1[p1[a] as int] == a,
                forall|a: int| 0 <= a < i ==> #[trigger] where_p2[p2[a] as int] == a,
            decreases N_PALETS - i,
        {
            let ghost w1 = where_p1;
            let ghost w2 = where_p2;
            where_p1[parent1.palets[i] as usize] = i;
            where_p2[parent2.palets[i] as usize] = i;
            proof {
                assert forall|a: int| 0 <= a < i + 1 implies #[trigger] where_p1[p1[a] as int] == a by {
                    if a < i {
                        assert(p1[a] != p1[i as int]);
                        assert(where_p1[p1[a] as int] == w1[p1[a] as int]);
                    }
                }
                assert forall|a: int| 0 <= a < i + 1 implies #[trigger] where_p2[p2[a] as int] == a by {
                    if a < i {
                        assert(p2[a] != p2[i as int]);
                        assert(where_p2[p2[a] as int] == w2[p2[a] as int]);
                    }
                }
            }
            i = i + 1;
        }
        proof {
            assert(locates(where_p1@, p1)) by {
                assert forall|v: int| 0 <= v < N_PALETS implies (#[trigger] where_p1@[v]) < N_PALETS && p1[where_p1@[v] as int] == v by {
                    lemma_perm_onto(p1, N_PALETS as int, v);
                    let a = choose|a: int| 0 <= a < p1.len() && p1[a] == v;
                    assert(where_p1[p1[a] as int] == a);
                }
            }
            assert(locates(where_p2@, p2)) by {
                assert forall|v: int| 0 <= v < N_PALETS implies (#[trigger] where_p2@[v]) < N_PALETS && p2[where_p2@[v] as int] == v by {
                    lemma_perm_onto(p2, N_PALETS as int, v);
                    let a = choose|a: int| 0 <= a < p2.len() && p2[a] == v;
                    assert(where_p2[p2[a] as int] == a);
                }
            }
        }
        cromosoma.push(parent1.palets[0]);
        cromosoma.push(parent1.palets[1]);
        let mut which = true;
        mask_p1[where_p1[parent1.palets[0] as usize]] = false;
        mask_p1[where_p1[parent1.palets[1] as usize]] = false;
        mask_p2[where_p2[parent1.palets[0] as usize]] = false;
        let mut cursor: usize = 0;
        let ghost mut curs: Seq<int> = seq![0int, 0int, 0int];
        proof {
            let c = cromosoma@;
            assert(p1[0] != p1[1]);
            assert(where_p1@[p1[0] as int] == 0);
            assert(where_p1@[p1[1] as int] == 1);
            assert(exact_mask(mask_p1@, p1, c)) by {
                assert forall|j: int| 0 <= j < N_PALETS implies (!(#[trigger] mask_p1@[j]) <==> c.contains(p1[j])) by {
                    if c.contains(p1[j]) {
                        let w = choose|w: int| 0 <= w < c.len() && c[w] == p1[j];
                        if w == 0 {
                            if j != 0 {
                                assert(p1[0] != p1[j]);
                            }
                        } else {
                            if j != 1 {
                                if j < 1 {
                                    assert(p1[j] != p1[1]);
                                } else {
                                    assert(p1[1] != p1[j]);
                                }
                            }
                        }
                    }
                    if j == 0 {
                        assert(c[0] == p1[0]);
                    }
                    if j == 1 {
                        assert(c[1] == p1[1]);
                    }
                }
            }
            assert(loose_mask(mask_p2@, p2, c)) by {
                let w0 = where_p2@[p1[0] as int] as int;
                assert forall|j: int| 0 <= j < N_PALETS implies (!(#[trigger] mask_p2@[j]) ==> c.contains(p2[j])) && (c.contains(p2[j]) && p2[j] != c.last() ==> !mask_p2@[j]) by {
                    if j == w0 {
                        assert(c[0] == p2[j]);
                    }
                    if c.contains(p2[j]) && p2[j] != c.last() {
                        let w = choose|w: int| 0 <= w < c.len() && c[w] == p2[j];
                        assert(w == 0);
                        assert(p2[w0] == p1[0]);
                        if j != w0 {
                            if j < w0 {
                                assert(p2[j] != p2[w0]);
                            } else {
                                assert(p2[w0] != p2[j]);
                            }
                        }
                    }
                }
            }
            assert(distinct(c));
        }
        while cromosoma.len() < N_PALETS
            invariant
                p1 == parent1.palets@,
                p2 == parent2.palets@,
                is_perm(p1, N_PALETS as int),
                is_perm(p2, N_PALETS as int),
                locates(where_p1@, p1),
                locates(where_p2@, p2),
                2 <= cromosoma@.len() <= N_PALETS,
                cromosoma@[0] == p1[0],
                cromosoma@[1] == p1[1],
                distinct(cromosoma@),
                forall|a: int| 0 <= a < cromosoma@.len() ==> (#[trigger] cromosoma@[a]) < N_PALETS,
                which == (cromosoma@.len() % 2 == 0),
                which ==> loose_mask(mask_p2@, p2, cromosoma@) && exact_mask(mask_p1@, p1, cromosoma@),
                !which ==> loose_mask(mask_p1@, p1, cromosoma@) && exact_mask(mask_p2@, p2, cromosoma@),
                cursor < N_PALETS,
                follows_edges(cromosoma@, p1, p2),
                curs.len() == cromosoma@.len() + 1,
                curs[2] == 0,
                curs[cromosoma@.len() as int] == cursor,
                forall|k: int| 2 <= k < cromosoma@.len() ==> #[trigger] aex_scan_step(cromosoma@, aex_turn(p1, p2, k), k, curs[k], curs[k + 1]),
            decreases N_PALETS - cromosoma@.len(),
        {
            let ghost c = cromosoma@;
            let ghost cur_before = cursor as int;
            let last = cromosoma[cromosoma.len() - 1];
            let v = if which {
                aex_step(&mut mask_p2, &parent2.palets, &where_p2, last, &mut cursor, Ghost(c))
            } else {
                aex_step(&mut mask_p1, &parent1.palets, &where_p1, last, &mut cursor, Ghost(c))
            };
            cromosoma.push(v);
            which = !which;
            proof {
                let c2 = cromosoma@;
                assert(c2 =~= c.push(v));
                let old_curs = curs;
                curs = curs.push(cursor as int);
                let k0 = c.len() as int;
                assert(c2.take(k0) =~= c);
                assert(c2[k0 - 1] == last);
                assert(aex_turn(p1, p2, k0) == if which { p1 } else { p2 });
                assert(aex_scan_step(c2, aex_turn(p1, p2, k0), k0, curs[k0], curs[k0 + 1]));
                assert forall|k: int| 2 <= k < c2.len() implies #[trigger] aex_scan_step(c2, aex_turn(p1, p2, k), k, curs[k], curs[k + 1]) by {
                    if k < k0 {
                        assert(aex_scan_step(c, aex_turn(p1, p2, k), k, old_curs[k], old_curs[k + 1]));
                        assert(c2.take(k) =~= c.take(k));
                        assert(c2[k] == c[k]);
                        assert(c2[k - 1] == c[k - 1]);
                        assert(curs[k] == old_curs[k]);
                        assert(curs[k + 1] == old_curs[k + 1]);
                    }
                }
                assert(distinct(c2)) by {
                    assert forall|a: int, b: int| 0 <= a < c2.len() && 0 <= b < c2.len() && a != b implies #[trigger] c2[a] != #[trigger] c2[b] by {
                        if a == c.len() {
                            assert(c.contains(c2[b]) ==> true);
                            assert(c2[b] == c[b]);
                        } else if b == c.len() {
                            assert(c2[a] == c[a]);
                        }
                    }
                }
                let om = if which { mask_p2@ } else { mask_p1@ };
                let op = if which { p2 } else { p1 };
                assert(loose_mask(om, op, c2)) by {
                    assert forall|j: int| 0 <= j < N_PALETS implies (!(#[trigger] om[j]) ==> c2.contains(op[j])) && (c2.contains(op[j]) && op[j] != c2.last() ==> !om[j]) by {
                        if !om[j] {
                            let w = choose|w: int| 0 <= w < c.len() && c[w] == op[j];
                            assert(c2[w] == op[j]);
                        }
                        if c2.contains(op[j]) && op[j] != c2.last() {
                            let w = choose|w: int| 0 <= w < c2.len() && c2[w] == op[j];
                            assert(c[w] == op[j]);
                        }
                    }
                }
                assert(follows_edges(c2, p1, p2)) by {
                    assert forall|k: int, i: int|
                        1 <= k < c2.len() - 1 && k % 2 == 1 && 0 <= i < N_PALETS - 1 && #[trigger] p2[i] == #[trigger] c2[k]
                            && !c2.take(k + 1).contains(p2[i + 1]) implies c2[k + 1] == p2[i + 1] by {
                        if k + 1 < c.len() {
                            assert(c2.take(k + 1) =~= c.take(k + 1));
                            assert(c2[k] == c[k]);
                            assert(c2[k + 1] == c[k + 1]);
                        } else {
                            assert(c2.take(k + 1) =~= c);
                            assert(c2[k] == last);
                        }
                    }
                    assert forall|k: int, i: int|
                        1 <= k < c2.len() - 1 && k % 2 == 0 && 0 <= i < N_PALETS - 1 && #[trigger] p1[i] == #[trigger] c2[k]
                            && !c2.take(k + 1).contains(p1[i + 1]) implies c2[k + 1] == p1[i + 1] by {
                        if k + 1 < c.len() {
                            assert(c2.take(k + 1) =~= c.take(k + 1));
                            assert(c2[k] == c[k]);
                            assert(c2[k + 1] == c[k + 1]);
                        } else {
                            assert(c2.take(k + 1) =~= c);
                            assert(c2[k] == last);
                        }
                    }
                }
            }
        }
        proof {
            lemma_distinct_perm(cromosoma@, N_PALETS as int);
            assert(aex_scans(cromosoma@, p1, p2, curs));
            assert(aex_child(cromosoma@, p1, p2));
            assert forall|d: Seq<u8>| #[trigger] aex_child(d, p1, p2) implies d == cromosoma@ by {
                lemma_aex_unique(d, cromosoma@, p1, p2);
            }
            if p1 == p2 {
                lemma_aex_self(cromosoma@, p1);
            }
        }
        Cromosoma::new_with(cromosoma)
    }
}

/// `c` is the child of the alternating edges crossover of `p1` and `p2`: a
/// permutation that starts with `p1`'s first two ids, follows the edges, and
/// otherwise takes the ids its searches find.
pub open spec fn aex_child(c: Seq<u8>, p1: Seq<u8>, p2: Seq<u8>) -> bool {
    &&& is_perm(c, N_PALETS as int)
    &&& c[0] == p1[0]
    &&& c[1] == p1[1]
    &&& follows_edges(c, p1, p2)
    &&& exists|cursors: Seq<int>| #[trigger] aex_scans(c, p1, p2, cursors)
}

/// Where a child that follows the edges of `p` alone agrees with `p` up to
/// position `k`, it agrees at `k + 1` too.
proof fn lemma_aex_self_step(c: Seq<u8>, p: Seq<u8>, k: int)
    requires
        is_perm(p, N_PALETS as int),
        c.len() == N_PALETS,
        follows_edges(c, p, p),
        1 <= k < N_PALETS - 1,
        c.take(k + 1) == p.take(k + 1),
    ensures
        c[k + 1] == p[k + 1],
{
    assert(c[k] == c.take(k + 1)[k]);
    assert(p[k] == c[k]);
    assert(!c.take(k + 1).contains(p[k + 1])) by {
        if c.take(k + 1).contains(p[k + 1]) {
            let j = choose|j: int| 0 <= j < k + 1 && #[trigger] c.take(k + 1)[j] == p[k + 1];
            assert(p.take(k + 1)[j] == p[j]);
            assert(p[j] != p[k + 1]);
        }
    }
}

/// The first `n` ids of a child that starts as `p` and follows the edges of
/// `p` alone are those of `p`.
proof fn lemma_aex_self_upto(c: Seq<u8>, p: Seq<u8>, n: int)
    requires
        is_perm(p, N_PALETS as int),
        c.len() == N_PALETS,
        c[0] == p[0],
        c[1] == p[1],
        follows_edges(c, p, p),
        2 <= n <= N_PALETS,
    ensures
        c.take(n) == p.take(n),
    decreases n,
{
    if n > 2 {
        lemma_aex_self_upto(c, p, n - 1);
        lemma_aex_self_step(c, p, n - 2);
        assert(c.take(n) =~= c.take(n - 1).push(c[n - 1]));
        assert(p.take(n) =~= p.take(n - 1).push(p[n - 1]));
    } else {
        assert(c.take(2) =~= p.take(2));
    }
}

/// The alternating edges crossover of a parent with itself gives the parent
/// back: every id's successor in the parent is still free when its turn
/// comes.
pub proof fn lemma_aex_self(c: Seq<u8>, p: Seq<u8>)
    requires
        is_perm(p, N_PALETS as int),
        aex_child(c, p, p),
    ensures
        c == p,
{
    lemma_aex_self_upto(c, p, N_PALETS as int);
    assert(c =~= c.take(N_PALETS as int));
    assert(p =~= p.take(N_PALETS as int));
}

/// Going `cyclic_dist(cur, e)` steps round from `cur` reaches `e`.
proof fn lemma_cyclic_reach(cur: int, e: int)
    requires
        0 <= cur < N_PALETS,
        0 <= e < N_PALETS,
    ensures
        0 <= cyclic_dist(cur, e) < N_PALETS,
        (cur + cyclic_dist(cur, e)) % (N_PALETS as int) == e,
{
}

/// Two alternating edges children of the same parents that agree before
/// position `k`, with the same search cursor there, agree at `k` and have the
/// same cursor after it.
proof fn lemma_aex_unique_step(
    c: Seq<u8>,
    d: Seq<u8>,
    p1: Seq<u8>,
    p2: Seq<u8>,
    cc: Seq<int>,
    cd: Seq<int>,
    k: int,
)
    requires
        c.len() == N_PALETS,
        d.len() == N_PALETS,
        p1.len() == N_PALETS,
        p2.len() == N_PALETS,
        follows_edges(c, p1, p2),
        follows_edges(d, p1, p2),
        aex_scans(c, p1, p2, cc),
        aex_scans(d, p1, p2, cd),
        2 <= k < N_PALETS,
        c.take(k) == d.take(k),
        cc[k] == cd[k],
        0 <= cc[k] < N_PALETS,
    ensures
        c[k] == d[k],
        cc[k + 1] == cd[k + 1],
        0 <= cc[k + 1] < N_PALETS,
{
    let par = aex_turn(p1, p2, k);
    assert(aex_scan_step(c, par, k, cc[k], cc[k + 1]));
    assert(aex_scan_step(d, par, k, cd[k], cd[k + 1]));
    assert(c[k - 1] == c.take(k)[k - 1]);
    assert(d[k - 1] == d.take(k)[k - 1]);
    if exists|i: int| 0 <= i < N_PALETS - 1 && #[trigger] par[i] == c[k - 1] && !c.take(k).contains(par[i + 1]) {
        let i = choose|i: int| 0 <= i < N_PALETS - 1 && #[trigger] par[i] == c[k - 1] && !c.take(k).contains(par[i + 1]);
        assert(c.take(k) =~= c.take(k - 1 + 1));
        if k % 2 == 0 {
            assert(p2[i] == c[k - 1]);
            assert(c[k] == p2[i + 1]);
            assert(p2[i] == d[k - 1]);
            assert(d[k] == p2[i + 1]);
        } else {
            assert(p1[i] == c[k - 1]);
            assert(c[k] == p1[i + 1]);
            assert(p1[i] == d[k - 1]);
            assert(d[k] == p1[i + 1]);
        }
    } else {
        assert(!exists|i: int| 0 <= i < N_PALETS - 1 && #[trigger] par[i] == d[k - 1] && !d.take(k).contains(par[i + 1]));
        let cur = cc[k];
        let e1 = choose|e: int|
            0 <= e < N_PALETS && c[k] == #[trigger] par[e] && !c.take(k).contains(par[e]) && cc[k + 1] == (e + 1)
                % (N_PALETS as int) && forall|x: int|
                0 <= x < cyclic_dist(cur, e) ==> c.take(k).contains(#[trigger] par[(cur + x) % (N_PALETS as int)]);
        let e2 = choose|e: int|
            0 <= e < N_PALETS && d[k] == #[trigger] par[e] && !d.take(k).contains(par[e]) && cd[k + 1] == (e + 1)
                % (N_PALETS as int) && forall|x: int|
                0 <= x < cyclic_dist(cur, e) ==> d.take(k).contains(#[trigger] par[(cur + x) % (N_PALETS as int)]);
        lemma_cyclic_reach(cur, e1);
        lemma_cyclic_reach(cur, e2);
        if cyclic_dist(cur, e1) < cyclic_dist(cur, e2) {
            let x = cyclic_dist(cur, e1);
            assert(d.take(k).contains(par[(cur + x) % (N_PALETS as int)]));
            assert(false);
        } else if cyclic_dist(cur, e2) < cyclic_dist(cur, e1) {
            let x = cyclic_dist(cur, e2);
            assert(c.take(k).contains(par[(cur + x) % (N_PALETS as int)]));
            assert(false);
        }
        assert(e1 == e2);
    }
}

/// Two alternating edges children of the same parents agree on their first
/// `n` ids and have the same search cursor after them.
proof fn lemma_aex_unique_upto(
    c: Seq<u8>,
    d: Seq<u8>,
    p1: Seq<u8>,
    p2: Seq<u8>,
    cc: Seq<int>,
    cd: Seq<int>,
    n: int,
)
    requires
        c.len() == N_PALETS,
        d.len() == N_PALETS,
        p1.len() == N_PALETS,
        p2.len() == N_PALETS,
        c[0] == p1[0] && c[1] == p1[1],
        d[0] == p1[0] && d[1] == p1[1],
        follows_edges(c, p1, p2),
        follows_edges(d, p1, p2),
        aex_scans(c, p1, p2, cc),
        aex_scans(d, p1, p2, cd),
        2 <= n <= N_PALETS,
    ensures
        c.take(n) == d.take(n),
        cc[n] == cd[n],
        0 <= cc[n] < N_PALETS,
    decreases n,
{
    if n > 2 {
        lemma_aex_unique_upto(c, d, p1, p2, cc, cd, n - 1);
        lemma_aex_unique_step(c, d, p1, p2, cc, cd, n - 1);
        assert(c.take(n) =~= c.take(n - 1).push(c[n - 1]));
        assert(d.take(n) =~= d.take(n - 1).push(d[n - 1]));
    } else {
        assert(c.take(2) =~= d.take(2));
    }
}

/// The alternating edges crossover determines its child: two children of the
/// same parents are the same.
pub proof fn lemma_aex_unique(c: Seq<u8>, d: Seq<u8>, p1: Seq<u8>, p2: Seq<u8>)
    requires
        is_perm(p1, N_PALETS as int),
        is_perm(p2, N_PALETS as int),
        aex_child(c, p1, p2),
        aex_child(d, p1, p2),
    ensures
        c == d,
{
    let cc = choose|cursors: Seq<int>| #[trigger] aex_scans(c, p1, p2, cursors);
    let cd = choose|cursors: Seq<int>| #[trigger] aex_scans(d, p1, p2, cursors);
    lemma_aex_unique_upto(c, d, p1, p2, cc, cd, N_PALETS as int);
    assert(c =~= c.take(N_PALETS as int));
    assert(d =~= d.take(N_PALETS as int));
}

/// Cut point that a draw picks.
pub open spec fn drawn_cut(x: u64) -> int {
    ((x as usize) % N_PALETS) as int
}

/// Order crossover took two draws after `before`, giving `after`, and the
/// children `c1` and `c2` are those of `a` and `b` with the cut points that
/// the draws pick, the lower one first.
pub open spec fn ox_draws(before: Seq<u64>, after: Seq<u64>, a: Seq<u8>, b: Seq<u8>, c1: Seq<u8>, c2: Seq<u8>) -> bool {
    let n = before.len() as int;
    let x = drawn_cut(after[n]);
    let y = drawn_cut(after[n + 1]);
    let lo = if x <= y { x } else { y };
    let hi = if x <= y { y } else { x };
    &&& after.len() == n + 2
    &&& after.take(n) == before
    &&& c1 == ox_child(a, b, lo, hi)
    &&& c2 == ox_child(b, a, lo, hi)
}

impl CrossType {
    /// Two children of `parent1` and `parent2`. `OX` draws two cut points and
    /// makes one child from each parent's run between them; `AEX` makes one
    /// child starting from each parent.
    pub fn cross(&self, parent1: &Cromosoma, parent2: &Cromosoma, rng: &mut RNG) -> (children: (Cromosoma, Cromosoma))
        requires
            is_perm(parent1.palets@, N_PALETS as int),
            is_perm(parent2.palets@, N_PALETS as int),
        ensures
            is_perm(children.0.palets@, N_PALETS as int),
            is_perm(children.1.palets@, N_PALETS as int),
            children.0.cost == 0,
            children.1.cost == 0,
            *self is OX ==> exists|start: int, end: int|
                0 <= start <= end < N_PALETS && children.0.palets@ == #[trigger] ox_child(
                    parent1.palets@,
                    parent2.palets@,
                    start,
                    end,
                ) && children.1.palets@ == ox_child(parent2.palets@, parent1.palets@, start, end),
            *self is AEX ==> aex_child(children.0.palets@, parent1.palets@, parent2.palets@) && aex_child(
                children.1.palets@,
                parent2.palets@,
                parent1.palets@,
            ),
            *self is OX ==> ox_draws(old(rng).draws(), final(rng).draws(), parent1.palets@, parent2.palets@, children.0.palets@, children.1.palets@),
            *self is AEX ==> *final(rng) == *old(rng),
            *self is AEX ==> forall|d: Seq<u8>| #[trigger] aex_child(d, parent1.palets@, parent2.palets@) ==> d == children.0.palets@,
            *self is AEX ==> forall|d: Seq<u8>| #[trigger] aex_child(d, parent2.palets@, parent1.palets@) ==> d == children.1.palets@,
    {
        match self {
            CrossType::OX => {
                let ghost d0 = rng.draws();
                let mut start = rng.next() % N_PALETS;
                let ghost d1 = rng.draws();
                let mut end = rng.next() % N_PALETS;
                proof {
                    assert(d1 =~= d0.push(d1.last()));
                    assert(rng.draws() =~= d1.push(rng.draws().last()));
                    assert(rng.draws() =~= d0 + seq![d1.last(), rng.draws().last()]);
                }
                if start > end {
                    let t = start;
                    start = end;
                    end = t;
                }
                let child1 = CrossType::cross_ox(start, end, parent1, parent2);
                let child2 = CrossType::cross_ox(start, end, parent2, parent1);
                proof {
                    assert(child1.palets@ == ox_child(parent1.palets@, parent2.palets@, start as int, end as int));
                    let d = rng.draws();
                    let n = d0.len() as int;
                    assert(d[n] == d1.last());
                    assert(d.take(n) =~= d0);
                }
                (child1, child2)
            },
            CrossType::AEX => {
                let child1 = CrossType::cross_aex(parent1, parent2);
                let child2 = CrossType::cross_aex(parent2, parent1);
                (child1, child2)
            },
        }
    }
}

/// Cost of a chromosome of valid ids fits a `usize` where the legs fit.
pub proof fn lemma_chrom_cost_fits(m: Costs, dests: Seq<u8>, ids: Seq<u8>)
    requires
        costs_fit(m),
        valid_palets(dests),
        ids.len() == N_PALETS,
        forall|i: int| 0 <= i < ids.len() ==> (#[trigger] ids[i]) < dests.len(),
    ensures
        0 <= chrom_cost(m, dests, ids) <= usize::MAX,
        priceable(m, dests, ids),
{
    let st = stops_of(ids, dests);
    assert(valid_palets(st)) by {
        assert forall|i: int| 0 <= i < st.len() implies valid_palet(#[trigger] st[i]) by {
            assert(st[i] == dests[ids[i] as int]);
        }
    }
    lemma_chunked_bound(m, st, N_TRUCKS as int);
    lemma_chunked_nonneg(m, st);
    lemma_chunked_cells(m, st);
    assert forall|i: int| 0 <= i < ids.len() implies valid_palet(#[trigger] dests[ids[i] as int]) by {
        assert(st[i] == dests[ids[i] as int]);
    }
    lemma_max_leg();
    assert((st.len() + N_TRUCKS) * max_leg() <= usize::MAX) by (nonlinear_arith)
        requires
            st.len() + N_TRUCKS == 180,
            max_leg() == usize::MAX as int / 180,
    ;
}

/// Number of ids in `lefts` whose palet is bound for city `c + 1`.
pub open spec fn dest_count(lefts: Seq<usize>, dests: Seq<u8>, c: int) -> int {
    lefts.map_values(|p: usize| dests[p as int]).to_multiset().count((c + 1) as u8) as int
}

/// The legs from the depot to the cities of the ids in `left`.
pub open spec fn depot_keys(m: Costs, dests: Seq<u8>, left: Seq<usize>) -> Seq<usize> {
    left.map_values(|p: usize| leg(m, 0, dests[p as int] - 1) as usize)
}

/// How many of the `n` ranked ids `GAGreedyP` draws among: a tenth of them,
/// rounded up.
pub open spec fn ga_best(n: int) -> int {
    let take = (n + 9) / 10;
    if take < n {
        take
    } else {
        n
    }
}

/// One step of `GAGreedyP` with the draw `d`: the ids `left` are ranked by
/// the leg from the depot to their city (stably), `id` is the one at the rank
/// that `d` picks below `ga_best` (so among the first tenth, rounded up), and
/// `next` is `left` without it.
pub open spec fn ga_step(m: Costs, dests: Seq<u8>, left: Seq<usize>, id: u8, next: Seq<usize>, d: u64) -> bool {
    let nb = ga_best(left.len() as int);
    exists|order: Seq<usize>|
        #[trigger] stable_order_of(depot_keys(m, dests, left), order) && 0 < nb && {
            let x = order[((d as usize) % (nb as usize)) as int] as int;
            0 <= x < left.len() && left[x] == id as usize && next == left.remove(x)
        }
}

/// The ids of `c` were taken, in that order, by steps of `GAGreedyP` from
/// all the ids in increasing order, step `k` with the draw `ds[k]`;
/// `lefts[k]` is what was left before step `k`.
pub open spec fn ga_greedy_order(m: Costs, dests: Seq<u8>, c: Seq<u8>, lefts: Seq<Seq<usize>>, ds: Seq<u64>) -> bool {
    &&& lefts.len() == c.len() + 1
    &&& ds.len() == c.len()
    &&& lefts[0] == Seq::new(N_PALETS as nat, |i: int| i as usize)
    &&& forall|k: int| 0 <= k < c.len() ==> #[trigger] ga_step(m, dests, lefts[k], c[k], lefts[k + 1], ds[k])
}

/// Randomised greedy start for the genetic search: truck after truck, slot
/// after slot, the palets not yet placed are ranked by the cost of reaching
/// them from the depot, and one of the cheapest tenth of them (rounded up) is
/// drawn at random.
pub struct GAGreedyP<'a> {
    cost_mat: &'a Costs,
    palets: &'a Palets,
    #[allow(unused)]
    trucks: Trucks,
}

impl<'a> GAGreedyP<'a> {
    /// The cost matrix.
    pub closed spec fn costs(&self) -> Costs {
        *self.cost_mat
    }

    /// The palets, by id.
    pub closed spec fn palets(&self) -> Seq<u8> {
        self.palets@
    }

    pub fn new(cost_mat: &'a Costs, palets: &'a Palets) -> (s: Self)
        ensures
            s.costs() == *cost_mat,
            s.palets() == palets@,
    {
        GAGreedyP { cost_mat, palets, trucks: [[0u8; TRUCK_CAP]; N_TRUCKS] }
    }

    /// A chromosome built as the type describes, its cost computed.
    pub fn run(&self, rng: &mut RNG) -> (c: Cromosoma)
        requires
            costs_fit(self.costs()),
            valid_palets(self.palets()),
            self.palets().len() == N_PALETS,
        ensures
            is_perm(c.palets@, N_PALETS as int),
            c.cost == chrom_cost(self.costs(), self.palets(), c.palets@),
            old(rng).draws().is_prefix_of(final(rng).draws()),
            exists|lefts: Seq<Seq<usize>>| #[trigger] ga_greedy_order(
                self.costs(),
                self.palets(),
                c.palets@,
                lefts,
                final(rng).draws().skip(old(rng).draws().len() as int),
            ),
    {
        let ghost dests = self.palets();
        let ghost m = self.costs();
        let ghost d0 = rng.draws();
        let mut sol = Cromosoma::default();
        let mut pals = count_palets(self.palets);
        let mut lens = [0usize; N_TRUCKS];
        let mut lefts: Vec<usize> = Vec::new();
        let mut q: usize = 0;
        while q < N_PALETS
            invariant
                q <= N_PALETS,
                lefts@.len() == q,
                forall|a: int| 0 <= a < q ==> #[trigger] lefts@[a] == a,
            decreases N_PALETS - q,
        {
            lefts.push(q);
            q = q + 1;
        }
        proof {
            assert(lefts@.map_values(|p: usize| dests[p as int]) =~= dests);
            assert(lefts@ =~= Seq::new(N_PALETS as nat, |i: int| i as usize));
            assert forall|c: int| 0 <= c < N implies #[trigger] pals[c] <= N_PALETS by {
                super::model::lemma_entry_le_sum(pals@, N as int, c);
            }
        }
        let mut cromo: Vec<[u8; TRUCK_CAP]> = vec![[0u8; TRUCK_CAP]; N_TRUCKS];
        let ghost mut placed: Seq<u8> = Seq::empty();
        let ghost mut steps: Seq<Seq<usize>> = seq![lefts@];
        let mut i: usize = 0;
        while i < N_TRUCKS
            invariant
                i <= N_TRUCKS,
                dests == self.palets(),
                m == self.costs(),
                costs_fit(m),
                dests.len() == N_PALETS,
                valid_palets(dests),
                cromo@.len() == N_TRUCKS,
                placed.len() == i * TRUCK_CAP,
                lefts@.len() + placed.len() == N_PALETS,
                forall|t: int, j: int| 0 <= t < i && 0 <= j < TRUCK_CAP ==> #[trigger] cromo@[t][j] == placed[t * TRUCK_CAP + j],
                forall|t: int, j: int| i <= t < N_TRUCKS && 0 <= j < TRUCK_CAP ==> #[trigger] cromo@[t][j] == 0,
                forall|t: int| i <= t < N_TRUCKS ==> #[trigger] lens[t] == 0,
                distinct(placed),
                forall|a: int| 0 <= a < placed.len() ==> (#[trigger] placed[a]) < N_PALETS,
                forall|a: int, b: int| 0 <= a < lefts@.len() && 0 <= b < lefts@.len() && a != b ==> #[trigger] lefts@[a] != #[trigger] lefts@[b],
                forall|a: int| 0 <= a < lefts@.len() ==> (#[trigger] lefts@[a]) < N_PALETS,
                forall|a: int, b: int| 0 <= a < lefts@.len() && 0 <= b < placed.len() ==> #[trigger] lefts@[a] != #[trigger] placed[b] as usize,
                forall|c: int| 0 <= c < N ==> #[trigger] pals[c] == dest_count(lefts@, dests, c),
                forall|c: int| 0 <= c < N ==> #[trigger] pals[c] <= N_PALETS,
                sum_upto(pals@, N as int) == lefts@.len(),
                steps.len() == placed.len() + 1,
                steps[placed.len() as int] == lefts@,
                d0 == old(rng).draws(),
                d0.is_prefix_of(rng.draws()),
                ga_greedy_order(m, dests, placed, steps, rng.draws().skip(d0.len() as int)),
            decreases N_TRUCKS - i,
        {
            let last = cromo[i][TRUCK_CAP - 1] as usize;
            assert(last == 0);
            while lens[i] < TRUCK_CAP
                invariant
                    i < N_TRUCKS,
                    last == 0,
                    lens[i as int] <= TRUCK_CAP,
                    dests == self.palets(),
                    m == self.costs(),
                    costs_fit(m),
                    dests.len() == N_PALETS,
                    valid_palets(dests),
                    cromo@.len() == N_TRUCKS,
                    placed.len() == i * TRUCK_CAP + lens[i as int],
                    lefts@.len() + placed.len() == N_PALETS,
                    forall|t: int, j: int| 0 <= t < i && 0 <= j < TRUCK_CAP ==> #[trigger] cromo@[t][j] == placed[t * TRUCK_CAP + j],
                    forall|j: int| 0 <= j < lens[i as int] ==> #[trigger] cromo@[i as int][j] == placed[i * TRUCK_CAP + j],
                    forall|t: int, j: int| i < t < N_TRUCKS && 0 <= j < TRUCK_CAP ==> #[trigger] cromo@[t][j] == 0,
                    forall|t: int| i < t < N_TRUCKS ==> #[trigger] lens[t] == 0,
                    distinct(placed),
                    forall|a: int| 0 <= a < placed.len() ==> (#[trigger] placed[a]) < N_PALETS,
                    forall|a: int, b: int| 0 <= a < lefts@.len() && 0 <= b < lefts@.len() && a != b ==> #[trigger] lefts@[a] != #[trigger] lefts@[b],
                    forall|a: int| 0 <= a < lefts@.len() ==> (#[trigger] lefts@[a]) < N_PALETS,
                    forall|a: int, b: int| 0 <= a < lefts@.len() && 0 <= b < placed.len() ==> #[trigger] lefts@[a] != #[trigger] placed[b] as usize,
                    forall|c: int| 0 <= c < N ==> #[trigger] pals[c] == dest_count(lefts@, dests, c),
                    forall|c: int| 0 <= c < N ==> #[trigger] pals[c] <= N_PALETS,
                    sum_upto(pals@, N as int) == lefts@.len(),
                    steps.len() == placed.len() + 1,
                    steps[placed.len() as int] == lefts@,
                    d0 == old(rng).draws(),
                    d0.is_prefix_of(rng.draws()),
                    ga_greedy_order(m, dests, placed, steps, rng.draws().skip(d0.len() as int)),
                decreases TRUCK_CAP - lens[i as int],
            {
                proof {
                    assert(placed.len() < N_PALETS) by (nonlinear_arith)
                        requires
                            placed.len() == i * TRUCK_CAP + lens[i as int],
                            i < N_TRUCKS,
                            lens[i as int] < TRUCK_CAP,
                    ;
                }
                let ghost dmap = lefts@.map_values(|p: usize| dests[p as int]);
                // candidates: (cost, destination, id)
                let mut cand_costs: Vec<usize> = Vec::new();
                let mut cand_dest: Vec<u8> = Vec::new();
                let mut cand_id: Vec<usize> = Vec::new();
                let mut a: usize = 0;
                while a < lefts.len()
                    invariant
                        a <= lefts@.len(),
                        last == 0,
                        dests == self.palets(),
                        m == self.costs(),
                        costs_fit(m),
                        dests.len() == N_PALETS,
                        valid_palets(dests),
                        forall|x: int| 0 <= x < lefts@.len() ==> (#[trigger] lefts@[x]) < N_PALETS,
                        forall|c: int| 0 <= c < N ==> #[trigger] pals[c] == dest_count(lefts@, dests, c),
                        dmap == lefts@.map_values(|p: usize| dests[p as int]),
                        cand_costs@.len() == a,
                        cand_dest@.len() == a,
                        cand_id@.len() == a,
                        forall|x: int| 0 <= x < a ==> #[trigger] cand_id@[x] == lefts@[x],
                        forall|x: int| 0 <= x < a ==> #[trigger] cand_dest@[x] == dests[lefts@[x] as int],
                        forall|x: int| 0 <= x < a ==> #[trigger] cand_costs@[x] == leg(m, 0, dests[lefts@[x] as int] - 1),
                        forall|x: int| 0 <= x < a ==> pals[#[trigger] cand_dest@[x] - 1] > 0,
                    decreases lefts@.len() - a,
                {
                    let p = lefts[a];
                    let dest = self.palets[p];
                    assert(super::model::valid_palet(dests[p as int]));
                    proof {
                        assert(dmap[a as int] == dest);
                        vstd::seq_lib::to_multiset_contains(dmap, dest);
                        assert(dmap.contains(dest));
                        assert(pals[dest - 1] == dest_count(lefts@, dests, dest - 1));
                        assert(((dest - 1 + 1) as u8) == dest);
                    }
                    if pals[(dest - 1) as usize] > 0 {
                        proof {
                            assert(leg(m, 0, dest - 1) <= max_leg());
                        }
                        cand_costs.push(self.cost_mat[last][(dest - 1) as usize]);
                        cand_dest.push(dest);
                        cand_id.push(p);
                    }
                    a = a + 1;
                }
                proof {
                    assert(cand_costs@ =~= depot_keys(m, dests, lefts@));
                }
                let order = stable_order(&cand_costs);
                let mut total: usize = 0;
                let mut c: usize = 0;
                while c < N
                    invariant
                        c <= N,
                        total <= c * N_PALETS,
                        total == sum_upto(pals@, c as int),
                        forall|x: int| 0 <= x < N ==> #[trigger] pals[x] <= N_PALETS,
                    decreases N - c,
                {
                    total = total + pals[c];
                    c = c + 1;
                }
                let take = (total + 9) / 10;
                let n_best = if take < order.len() {
                    take
                } else {
                    order.len()
                };
                proof {
                    assert(cand_costs@.len() > 0);
                    assert(order@.len() == cand_costs@.len());
                    assert(total == lefts@.len());
                }
                let ghost dprev = rng.draws();
                let r = rng.next() % n_best;
                let ghost dnow = rng.draws();
                proof {
                    assert(dnow =~= dprev.push(dnow.last()));
                }
                let pick = order[r];
                let chosen_dest = cand_dest[pick];
                let chosen_id = cand_id[pick];
                let l = lens[i];
                cromo.set(i, {
                    let mut row = cromo[i];
                    row[l] = chosen_id as u8;
                    row
                });
                let mut pos: usize = 0;
                proof {
                    assert(lefts@[pick as int] == chosen_id);
                }
                while lefts[pos] != chosen_id
                    invariant
                        pos <= pick < lefts@.len(),
                        lefts@.len() <= N_PALETS,
                        lefts@[pick as int] == chosen_id,
                        forall|x: int| 0 <= x < pos ==> #[trigger] lefts@[x] != chosen_id,
                    decreases pick - pos,
                {
                    pos = pos + 1;
                }
                proof {
                    if pos != pick {
                        assert(lefts@[pos as int] != lefts@[pick as int]);
                    }
                }
                let ghost lefts_before = lefts@;
                lefts.remove(pos);
                lens[i] = l + 1;
                let ghost pals_before = pals;
                pals[(chosen_dest - 1) as usize] = pals[(chosen_dest - 1) as usize] - 1;
                proof {
                    let old_placed = placed;
                    let old_steps = steps;
                    placed = placed.push(chosen_id as u8);
                    steps = steps.push(lefts@);
                    lemma_sum_update(pals_before@, N as int, (chosen_dest - 1) as int, pals[(chosen_dest - 1) as int]);
                    assert(pals@ =~= pals_before@.update((chosen_dest - 1) as int, pals[(chosen_dest - 1) as int]));
                    let dsn = dnow.skip(d0.len() as int);
                    let dsp = dprev.skip(d0.len() as int);
                    let kk = old_placed.len() as int;
                    assert(dsn[kk] == dnow.last());
                    assert(n_best == ga_best(lefts_before.len() as int));
                    assert(stable_order_of(depot_keys(m, dests, lefts_before), order@));
                    assert(lefts@ =~= lefts_before.remove(pos as int));
                    assert(pos == pick);
                    assert(ga_step(m, dests, lefts_before, chosen_id as u8, lefts@, dsn[kk]));
                    assert forall|k: int| 0 <= k < placed.len() implies #[trigger] ga_step(m, dests, steps[k], placed[k], steps[k + 1], dsn[k]) by {
                        if k < old_placed.len() {
                            assert(steps[k] == old_steps[k]);
                            assert(steps[k + 1] == old_steps[k + 1]);
                            assert(placed[k] == old_placed[k]);
                            assert(dsn[k] == dsp[k]);
                            assert(ga_step(m, dests, old_steps[k], old_placed[k], old_steps[k + 1], dsp[k]));
                        }
                    }
                    assert(ga_greedy_order(m, dests, placed, steps, dsn));
                    assert(lefts@ =~= lefts_before.remove(pos as int));
                    let dm0 = lefts_before.map_values(|p: usize| dests[p as int]);
                    let dm1 = lefts@.map_values(|p: usize| dests[p as int]);
                    assert(dm1 =~= dm0.remove(pos as int));
                    vstd::seq_lib::to_multiset_remove(dm0, pos as int);
                    assert(dm0[pos as int] == chosen_dest);
                    assert forall|x: int| 0 <= x < N implies #[trigger] pals[x] == dest_count(lefts@, dests, x) by {
                        if x != chosen_dest - 1 {
                            assert(pals[x] == pals_before[x]);
                            assert((x + 1) as u8 != chosen_dest);
                        } else {
                            assert(((x + 1) as u8) == chosen_dest);
                        }
                    }
                    assert forall|a: int, b: int| 0 <= a < placed.len() && 0 <= b < placed.len() && a != b implies #[trigger] placed[a] != #[trigger] placed[b] by {
                        if a == old_placed.len() {
                            assert(lefts_before[pos as int] != old_placed[b] as usize);
                        } else if b == old_placed.len() {
                            assert(lefts_before[pos as int] != old_placed[a] as usize);
                        }
                    }
                    assert forall|a: int, b: int| 0 <= a < lefts@.len() && 0 <= b < placed.len() implies #[trigger] lefts@[a] != #[trigger] placed[b] as usize by {
                        let a0 = if a < pos { a } else { a + 1 };
                        assert(lefts@[a] == lefts_before[a0]);
                        if b == old_placed.len() {
                            assert(lefts_before[a0] != lefts_before[pos as int]);
                        }
                    }
                    assert forall|a: int, b: int| 0 <= a < lefts@.len() && 0 <= b < lefts@.len() && a != b implies #[trigger] lefts@[a] != #[trigger] lefts@[b] by {
                        let a0 = if a < pos { a } else { a + 1 };
                        let b0 = if b < pos { b } else { b + 1 };
                        assert(lefts_before[a0] != lefts_before[b0]);
                    }
                    assert forall|a: int| 0 <= a < lefts@.len() implies (#[trigger] lefts@[a]) < N_PALETS by {
                        let a0 = if a < pos { a } else { a + 1 };
                        assert(lefts@[a] == lefts_before[a0]);
                    }
                    assert forall|j: int| 0 <= j < lens[i as int] implies #[trigger] cromo@[i as int][j] == placed[i * TRUCK_CAP + j] by {
                        if j < l {
                            assert(placed[i * TRUCK_CAP + j] == old_placed[i * TRUCK_CAP + j]);
                        }
                    }
                    assert forall|t: int, j: int| 0 <= t < i && 0 <= j < TRUCK_CAP implies #[trigger] cromo@[t][j] == placed[t * TRUCK_CAP + j] by {
                        assert(t * TRUCK_CAP + j < i * TRUCK_CAP) by (nonlinear_arith)
                            requires t < i, j < TRUCK_CAP;
                        assert(placed[t * TRUCK_CAP + j] == old_placed[t * TRUCK_CAP + j]);
                    }
                }
            }
            i = i + 1;
        }
        let mut flat_ids: Vec<u8> = Vec::new();
        let mut t: usize = 0;
        while t < N_TRUCKS
            invariant
                t <= N_TRUCKS,
                cromo@.len() == N_TRUCKS,
                placed.len() == N_PALETS,
                flat_ids@ =~= placed.take(t * TRUCK_CAP),
                forall|x: int, j: int| 0 <= x < N_TRUCKS && 0 <= j < TRUCK_CAP ==> #[trigger] cromo@[x][j] == placed[x * TRUCK_CAP + j],
            decreases N_TRUCKS - t,
        {
            let mut j: usize = 0;
            while j < TRUCK_CAP
                invariant
                    t < N_TRUCKS,
                    j <= TRUCK_CAP,
                    cromo@.len() == N_TRUCKS,
                    placed.len() == N_PALETS,
                    flat_ids@ =~= placed.take(t * TRUCK_CAP + j),
                    forall|x: int, y: int| 0 <= x < N_TRUCKS && 0 <= y < TRUCK_CAP ==> #[trigger] cromo@[x][y] == placed[x * TRUCK_CAP + y],
                decreases TRUCK_CAP - j,
            {
                proof {
                    assert(t * TRUCK_CAP + j < N_PALETS) by (nonlinear_arith)
                        requires t < N_TRUCKS, j < TRUCK_CAP;
                }
                flat_ids.push(cromo[t][j]);
                j = j + 1;
            }
            t = t + 1;
        }
        proof {
            assert(placed.take(N_PALETS as int) =~= placed);
            lemma_distinct_perm(placed, N_PALETS as int);
            lemma_chrom_cost_fits(m, dests, placed);
            assert(ga_greedy_order(m, dests, flat_ids@, steps, rng.draws().skip(d0.len() as int)));
        }
        sol.palets = flat_ids;
        sol.cost(self.palets, self.cost_mat);
        sol
    }
}

/// Every chromosome lists each palet id once.
pub open spec fn valid_population(pop: Seq<Cromosoma>) -> bool {
    forall|i: int| 0 <= i < pop.len() ==> is_perm(#[trigger] pop[i].palets@, N_PALETS as int)
}

/// The costs of the chromosomes, in order.
pub open spec fn costs_of(pop: Seq<Cromosoma>) -> Seq<usize> {
    pop.map_values(|c: Cromosoma| c.cost)
}

/// `after` is `before` sorted by cost, chromosomes of equal cost in their
/// order in `before`.
pub open spec fn sorted_by_cost(before: Seq<Cromosoma>, after: Seq<Cromosoma>) -> bool {
    exists|order: Seq<usize>|
        #[trigger] stable_order_of(costs_of(before), order) && after.len() == before.len() && forall|i: int|
            0 <= i < after.len() ==> #[trigger] after[i].palets@ == before[order[i] as int].palets@
                && after[i].cost == before[order[i] as int].cost
}

/// A population sorted by cost lists its costs in increasing order, and keeps
/// its size.
pub proof fn lemma_sorted_by_cost_is_sorted(before: Seq<Cromosoma>, after: Seq<Cromosoma>)
    requires
        sorted_by_cost(before, after),
    ensures
        after.len() == before.len(),
        forall|i: int, j: int| 0 <= i < j < after.len() ==> #[trigger] after[i].cost <= #[trigger] after[j].cost,
{
    let order = choose|order: Seq<usize>|
        #[trigger] stable_order_of(costs_of(before), order) && after.len() == before.len() && forall|i: int|
            0 <= i < after.len() ==> #[trigger] after[i].palets@ == before[order[i] as int].palets@
                && after[i].cost == before[order[i] as int].cost;
    assert forall|i: int, j: int| 0 <= i < j < after.len() implies #[trigger] after[i].cost <= #[trigger] after[j].cost by {
        assert(key_before(costs_of(before), order[i] as int, order[j] as int));
        assert(after[i].palets@ == before[order[i] as int].palets@);
        assert(after[j].palets@ == before[order[j] as int].palets@);
    }
}

/// The first of a population sorted by cost costs no more than any
/// chromosome of the population.
pub proof fn lemma_sorted_first_is_cheapest(before: Seq<Cromosoma>, after: Seq<Cromosoma>)
    requires
        sorted_by_cost(before, after),
        before.len() > 0,
    ensures
        forall|j: int| 0 <= j < before.len() ==> after[0].cost <= #[trigger] before[j].cost,
{
    lemma_sorted_by_cost_is_sorted(before, after);
    let order = choose|order: Seq<usize>|
        #[trigger] stable_order_of(costs_of(before), order) && after.len() == before.len() && forall|i: int|
            0 <= i < after.len() ==> #[trigger] after[i].palets@ == before[order[i] as int].palets@
                && after[i].cost == before[order[i] as int].cost;
    assert forall|j: int| 0 <= j < before.len() implies after[0].cost <= #[trigger] before[j].cost by {
        lemma_stable_order_onto(costs_of(before), order, j);
        let q = choose|q: int| 0 <= q < order.len() && order[q] == j;
        assert(costs_of(before).len() == before.len());
        assert(0 <= q < after.len());
        assert(after[q].palets@ == before[order[q] as int].palets@);
        if q > 0 {
            assert(after[0].cost <= after[q].cost);
        }
    }
}

/// The population sorted by cost (stable).
pub fn sort_by_cost(pop: &Vec<Cromosoma>) -> (sorted: Vec<Cromosoma>)
    ensures
        sorted_by_cost(pop@, sorted@),
        valid_population(pop@) ==> valid_population(sorted@),
{
    let mut keys: Vec<usize> = Vec::new();
    let mut i: usize = 0;
    while i < pop.len()
        invariant
            i <= pop@.len(),
            keys@ =~= costs_of(pop@).take(i as int),
        decreases pop@.len() - i,
    {
        keys.push(pop[i].cost);
        i = i + 1;
    }
    proof {
        assert(keys@ =~= costs_of(pop@));
    }
    let order = stable_order(&keys);
    let mut sorted: Vec<Cromosoma> = Vec::new();
    let mut k: usize = 0;
    while k < order.len()
        invariant
            k <= order@.len(),
            stable_order_of(costs_of(pop@), order@),
            sorted@.len() == k,
            forall|a: int| 0 <= a < k ==> #[trigger] sorted@[a].palets@ == pop@[order@[a] as int].palets@
                && sorted@[a].cost == pop@[order@[a] as int].cost,
        decreases order@.len() - k,
    {
        sorted.push(pop[order[k]].clone());
        k = k + 1;
    }
    proof {
        assert(sorted_by_cost(pop@, sorted@));
        if valid_population(pop@) {
            assert forall|a: int| 0 <= a < sorted@.len() implies is_perm(#[trigger] sorted@[a].palets@, N_PALETS as int) by {
                assert(sorted@[a].palets@ == pop@[order@[a] as int].palets@);
            }
        }
    }
    sorted
}

/// The lowest cost of a non-empty population.
pub fn min_cost(pop: &Vec<Cromosoma>) -> (c: usize)
    requires
        pop@.len() > 0,
    ensures
        exists|i: int| 0 <= i < pop@.len() && c == #[trigger] pop@[i].cost,
        forall|i: int| 0 <= i < pop@.len() ==> c <= #[trigger] pop@[i].cost,
{
    let mut best = pop[0].cost;
    let mut i: usize = 1;
    while i < pop.len()
        invariant
            1 <= i <= pop@.len(),
            exists|j: int| 0 <= j < i && best == #[trigger] pop@[j].cost,
            forall|j: int| 0 <= j < i ==> best <= #[trigger] pop@[j].cost,
        decreases pop@.len() - i,
    {
        if pop[i].cost < best {
            best = pop[i].cost;
        }
        i = i + 1;
    }
    best
}

/// Index of the first chromosome of lowest cost.
pub fn best_index(pop: &Vec<Cromosoma>) -> (b: usize)
    requires
        pop@.len() > 0,
    ensures
        b < pop@.len(),
        forall|i: int| 0 <= i < pop@.len() ==> pop@[b as int].cost <= #[trigger] pop@[i].cost,
        forall|i: int| 0 <= i < b ==> pop@[b as int].cost < #[trigger] pop@[i].cost,
{
    let mut best: usize = 0;
    let mut i: usize = 1;
    while i < pop.len()
        invariant
            1 <= i <= pop@.len(),
            best < i,
            forall|j: int| 0 <= j < i ==> pop@[best as int].cost <= #[trigger] pop@[j].cost,
            forall|j: int| 0 <= j < best ==> pop@[best as int].cost < #[trigger] pop@[j].cost,
        decreases pop@.len() - i,
    {
        if pop[i].cost < pop[best].cost {
            best = i;
        }
        i = i + 1;
    }
    best
}

/// Tournament of two: the first drawn, unless the second costs strictly less.
pub(crate) fn tournament(pop: &Vec<Cromosoma>, a: usize, b: usize) -> (w: usize)
    requires
        a < pop@.len(),
        b < pop@.len(),
    ensures
        w == if pop@[b as int].cost < pop@[a as int].cost { b } else { a },
{
    if pop[b].cost < pop[a].cost {
        b
    } else {
        a
    }
}

/// The plan that chromosome `ids` encodes: slot `j` of truck `t` holds the
/// palet with id `ids[t * TRUCK_CAP + j]`.
pub open spec fn plan_of(t: Trucks, ids: Seq<u8>, dests: Seq<u8>) -> bool {
    forall|x: int, j: int| 0 <= x < N_TRUCKS && 0 <= j < TRUCK_CAP ==> #[trigger] t[x][j] == dests[ids[x * TRUCK_CAP + j] as int]
}

/// The trucks from `r` on cost what the chunks of `stops` from `r * TRUCK_CAP`
/// on cost, where truck `x` carries the `x`-th chunk of `stops`.
proof fn lemma_chunks_from(m: Costs, stops: Seq<u8>, t: Trucks, r: int)
    requires
        stops.len() == N_PALETS,
        forall|x: int, j: int| 0 <= x < N_TRUCKS && 0 <= j < TRUCK_CAP ==> #[trigger] t[x][j] == stops[x * TRUCK_CAP + j],
        0 <= r <= N_TRUCKS,
    ensures
        chunked_cost(m, stops.skip(r * TRUCK_CAP)) + cost_upto(m, t, r) == trucks_cost(m, t),
    decreases N_TRUCKS - r,
{
    if r == N_TRUCKS {
        assert(stops.skip(r * TRUCK_CAP) =~= Seq::<u8>::empty());
    } else {
        lemma_chunks_from(m, stops, t, r + 1);
        let rest = stops.skip(r * TRUCK_CAP);
        assert(rest.take(TRUCK_CAP as int) =~= t[r]@) by {
            assert forall|j: int| 0 <= j < TRUCK_CAP implies rest.take(TRUCK_CAP as int)[j] == #[trigger] t[r]@[j] by {
                assert(t[r][j] == stops[r * TRUCK_CAP + j]);
            }
        }
        assert(rest.skip(TRUCK_CAP as int) =~= stops.skip((r + 1) * TRUCK_CAP));
        if r == N_TRUCKS - 1 {
            assert(rest =~= rest.take(TRUCK_CAP as int));
            assert(stops.skip((r + 1) * TRUCK_CAP) =~= Seq::<u8>::empty());
        }
    }
}

/// The cost that a chromosome carries is the cost of the plan it encodes:
/// `chrom_cost` of a full list of ids is `trucks_cost` of its plan.
pub proof fn lemma_chrom_cost_is_plan_cost(m: Costs, dests: Seq<u8>, ids: Seq<u8>, t: Trucks)
    requires
        ids.len() == N_PALETS,
        plan_of(t, ids, dests),
    ensures
        chrom_cost(m, dests, ids) == trucks_cost(m, t),
{
    let stops = stops_of(ids, dests);
    assert forall|x: int, j: int| 0 <= x < N_TRUCKS && 0 <= j < TRUCK_CAP implies #[trigger] t[x][j] == stops[x * TRUCK_CAP + j] by {
        assert(t[x][j] == dests[ids[x * TRUCK_CAP + j] as int]);
        assert(0 <= x * TRUCK_CAP + j < N_PALETS) by (nonlinear_arith)
            requires
                0 <= x < N_TRUCKS,
                0 <= j < TRUCK_CAP,
        ;
    }
    lemma_chunks_from(m, stops, t, 0);
    assert(stops.skip(0) =~= stops);
}

/// Every chromosome carries the cost of the plan it encodes.
pub open spec fn priced(pop: Seq<Cromosoma>, m: Costs, dests: Seq<u8>) -> bool {
    forall|i: int| 0 <= i < pop.len() ==> (#[trigger] pop[i]).cost == chrom_cost(m, dests, pop[i].palets@)
}

/// A population of `N_CROMOSOMA - 1` random chromosomes and one built by
/// `GAGreedyP` (with the last `N_PALETS` draws), all with their costs
/// computed.
pub(crate) fn first_population(cost_mat: &Costs, palets: &Palets, rng: &mut RNG) -> (pop: Vec<Cromosoma>)
    requires
        costs_fit(*cost_mat),
        valid_palets(palets@),
        palets@.len() == N_PALETS,
    ensures
        pop@.len() == N_CROMOSOMA,
        valid_population(pop@),
        priced(pop@, *cost_mat, palets@),
        exists|lefts: Seq<Seq<usize>>| #[trigger] ga_greedy_order(
            *cost_mat,
            palets@,
            pop@[N_CROMOSOMA - 1].palets@,
            lefts,
            final(rng).draws().skip(final(rng).draws().len() - N_PALETS),
        ),
{
    let greedy = GAGreedyP::new(cost_mat, palets);
    let mut poblacion: Vec<Cromosoma> = Vec::new();
    let mut i: usize = 0;
    while i < N_CROMOSOMA - 1
        invariant
            i <= N_CROMOSOMA - 1,
            poblacion@.len() == i,
            valid_population(poblacion@),
            forall|a: int| 0 <= a < i ==> (#[trigger] poblacion@[a]).cost == 0,
        decreases N_CROMOSOMA - 1 - i,
    {
        poblacion.push(Cromosoma::get_random(rng));
        i = i + 1;
    }
    let ghost dg = rng.draws();
    poblacion.push(greedy.run(rng));
    let ghost last = poblacion@[N_CROMOSOMA - 1].palets@;
    proof {
        let lefts = choose|lefts: Seq<Seq<usize>>| #[trigger] ga_greedy_order(*cost_mat, palets@, last, lefts, rng.draws().skip(dg.len() as int));
        assert(rng.draws().len() - N_PALETS == dg.len());
        assert(ga_greedy_order(*cost_mat, palets@, last, lefts, rng.draws().skip(rng.draws().len() - N_PALETS)));
        assert(poblacion@[N_CROMOSOMA - 1].cost == chrom_cost(*cost_mat, palets@, poblacion@[N_CROMOSOMA - 1].palets@));
    }
    let mut poblacion2: Vec<Cromosoma> = Vec::new();
    let mut k: usize = 0;
    while k < N_CROMOSOMA
        invariant
            k <= N_CROMOSOMA,
            poblacion@.len() == N_CROMOSOMA,
            valid_population(poblacion@),
            forall|a: int| 0 <= a < N_CROMOSOMA ==> (#[trigger] poblacion@[a]).cost == 0
                || poblacion@[a].cost == chrom_cost(*cost_mat, palets@, poblacion@[a].palets@),
            costs_fit(*cost_mat),
            valid_palets(palets@),
            palets@.len() == N_PALETS,
            poblacion2@.len() == k,
            valid_population(poblacion2@),
            forall|a: int| 0 <= a < k ==> (#[trigger] poblacion2@[a]).cost == chrom_cost(*cost_mat, palets@, poblacion2@[a].palets@),
            forall|a: int| 0 <= a < k ==> (#[trigger] poblacion2@[a]).palets@ == poblacion@[a].palets@,
            last == poblacion@[N_CROMOSOMA - 1].palets@,
        decreases N_CROMOSOMA - k,
    {
        let mut p = poblacion[k].clone();
        proof {
            assert(is_perm(poblacion@[k as int].palets@, N_PALETS as int));
            lemma_chrom_cost_fits(*cost_mat, palets@, p.palets@);
        }
        p.cost(palets, cost_mat);
        poblacion2.push(p);
        k = k + 1;
    }
    proof {
        assert(poblacion2@[N_CROMOSOMA - 1].palets@ == last);
    }
    poblacion2
}

/// The cost a chromosome stands at: the cost it keeps, or where it keeps none
/// (0), the cost of its ids.
pub open spec fn kept_cost(m: Costs, dests: Seq<u8>, c: Cromosoma) -> int {
    if c.cost == 0 {
        chrom_cost(m, dests, c.palets@)
    } else {
        c.cost as int
    }
}

/// `c` is the lowest cost kept in `pop`.
pub open spec fn lowest_cost(pop: Seq<Cromosoma>, c: int) -> bool {
    &&& exists|i: int| 0 <= i < pop.len() && #[trigger] pop[i].cost == c
    &&& forall|i: int| 0 <= i < pop.len() ==> c <= #[trigger] pop[i].cost
}

/// `after` is a generation of the genetic search bred from `before` with
/// the draws `ds`: with `before` sorted by cost (stable), the `N_ELITISM`
/// first of it close `after` with their costs, the `PAIRS` pairs before them
/// were bred from it one after another, each with its run of `ds`
/// (`ga_bred`), and the first of `after` is the second child of the first
/// pair.
pub open spec fn ga_generation(
    m: Costs,
    dests: Seq<u8>,
    before: Seq<Cromosoma>,
    after: Seq<Cromosoma>,
    ds: Seq<u64>,
) -> bool {
    &&& after.len() == N_CROMOSOMA
    &&& exists|sorted: Seq<Cromosoma>, segs: Seq<Seq<u64>>|
        #![trigger sorted_by_cost(before, sorted), segs.flatten()]
        sorted_by_cost(before, sorted) && segs.len() == PAIRS && ds == segs.flatten() && (forall|e: int|
            0 <= e < N_ELITISM ==> #[trigger] after[N_CROMOSOMA - N_ELITISM + e].palets@ == sorted[e].palets@
                && after[N_CROMOSOMA - N_ELITISM + e].cost == sorted[e].cost)
            && (forall|p: int| 1 <= p < PAIRS ==> #[trigger] ga_bred(m, dests, sorted, segs[p], after[2 * p - 1], after[2 * p]))
            && (exists|c: Cromosoma| #[trigger] ga_bred(m, dests, sorted, segs[0], c, after[0]))
}

/// A run of `N_GEN` generations from the population `start`: `pops[g]` is
/// the population before generation `g + 1` (`pops[N_GEN]` after the last),
/// each bred from the one before with the draws `dss[g]`
/// (`ga_generation`), and record `i` holds the lowest cost of the population
/// before generation `100 * (i + 1)`.
pub open spec fn ga_run(
    m: Costs,
    dests: Seq<u8>,
    start: Seq<Cromosoma>,
    pops: Seq<Seq<Cromosoma>>,
    records: Seq<(usize, usize)>,
    dss: Seq<Seq<u64>>,
) -> bool {
    &&& pops.len() == N_GEN + 1
    &&& dss.len() == N_GEN
    &&& pops[0] == start
    &&& forall|g: int| 0 <= g < N_GEN ==> #[trigger] ga_generation(m, dests, pops[g], pops[g + 1], dss[g])
    &&& records.len() == N_GEN / 100
    &&& forall|i: int| 0 <= i < records.len() ==> (#[trigger] records[i]).0 == 100 * (i + 1) && lowest_cost(
        pops[100 * (i + 1) - 1],
        records[i].1 as int,
    )
}

/// Some chromosome of `pop` costs at most `c`.
pub open spec fn cost_within(pop: Seq<Cromosoma>, c: int) -> bool {
    exists|j: int| 0 <= j < pop.len() && #[trigger] pop[j].cost <= c
}

/// Genetic search over a population of chromosomes.
pub struct Genetic<'a> {
    poblacion: Vec<Cromosoma>,
    palets: &'a Palets,
    cost_mat: &'a Costs,
}

impl<'a> Genetic<'a> {
    /// The current population.
    pub closed spec fn population(&self) -> Seq<Cromosoma> {
        self.poblacion@
    }

    /// The cost matrix.
    pub closed spec fn costs(&self) -> Costs {
        *self.cost_mat
    }

    /// The palets, by id.
    pub closed spec fn palets(&self) -> Seq<u8> {
        self.palets@
    }

    /// A population of `N_CROMOSOMA - 1` random chromosomes and one built by
    /// `GAGreedyP` (with the last `N_PALETS` draws), all with their costs
    /// computed.
    pub fn new(cost_mat: &'a Costs, palets: &'a Palets, rng: &mut RNG) -> (g: Self)
        requires
            costs_fit(*cost_mat),
            valid_palets(palets@),
            palets@.len() == N_PALETS,
        ensures
            g.costs() == *cost_mat,
            g.palets() == palets@,
            g.population().len() == N_CROMOSOMA,
            valid_population(g.population()),
            priced(g.population(), *cost_mat, palets@),
            exists|lefts: Seq<Seq<usize>>| #[trigger] ga_greedy_order(
                *cost_mat,
                palets@,
                g.population()[N_CROMOSOMA - 1].palets@,
                lefts,
                final(rng).draws().skip(final(rng).draws().len() - N_PALETS),
            ),
    {
        let poblacion = first_population(cost_mat, palets, rng);
        Genetic { poblacion, palets, cost_mat }
    }
}

/// `c1` and `c2` are their children by the alternating edges crossover (one
/// starting from each parent) where `crossed`, else the parents `a` and `b`
/// copied.
pub open spec fn aex_or_copy(a: Seq<u8>, b: Seq<u8>, crossed: bool, c1: Seq<u8>, c2: Seq<u8>) -> bool {
    if crossed {
        aex_child(c1, a, b) && aex_child(c2, b, a)
    } else {
        c1 == a && c2 == b
    }
}

/// `c` is `a` with the ids at two different positions exchanged.
pub open spec fn one_swap(a: Seq<u8>, c: Seq<u8>) -> bool {
    exists|x: int, y: int| 0 <= x < N_PALETS && 0 <= y < N_PALETS && x != y && c == #[trigger] swap_seq(a, x, y)
}

/// The winner of a tournament between members `a` and `b` of `pop`: `a`,
/// unless `b` costs strictly less.
pub open spec fn tourney(pop: Seq<Cromosoma>, a: int, b: int) -> int {
    if pop[b].cost < pop[a].cost {
        b
    } else {
        a
    }
}

/// The cost a child keeps once priced: the cost of its ids where it was
/// crossed, or where its parent kept none (0); the parent's kept cost where it
/// was copied (mutated or not).
pub open spec fn bred_cost(m: Costs, dests: Seq<u8>, parent: Cromosoma, crossed: bool, child: Seq<u8>) -> int {
    if !crossed && parent.cost != 0 {
        parent.cost as int
    } else {
        chrom_cost(m, dests, child)
    }
}

/// The member of the population that a draw picks.
pub open spec fn drawn_index(x: u64) -> int {
    ((x as usize) % N_CROMOSOMA) as int
}

/// A draw, taken as a fraction of 1 in steps of `2^-53` (its top 53 bits),
/// is at most `steps` steps.
pub open spec fn drawn_within(x: u64, steps: u64) -> bool {
    (x >> 11u64) <= steps
}

/// The first draws `d` of a pair pick its parents and its crossing: `p1`
/// wins the tournament between the members that the first and second draws
/// pick, `p2` the one between those that the fourth and sixth pick (the third
/// and fifth are drawn and left unused), and the seventh decides `crossed`
/// (`CROSS_STEPS`).
pub open spec fn pair_draws(pop: Seq<Cromosoma>, d: Seq<u64>, p1: int, p2: int, crossed: bool) -> bool {
    &&& d.len() >= 8
    &&& p1 == tourney(pop, drawn_index(d[0]), drawn_index(d[1]))
    &&& p2 == tourney(pop, drawn_index(d[3]), drawn_index(d[5]))
    &&& crossed == drawn_within(d[6], CROSS_STEPS)
}

/// `c1` and `c2` were bred by the genetic search from `pop` with the draws
/// `d`: from the parents and the crossing that the first draws pick
/// (`pair_draws`), crossed or copied; then, where the eighth draw is within
/// `MUT_STEPS`, both mutated by one exchange, each with its run of the draws
/// after it (`simple_draws`), else left as they were and `d` ends there; then
/// priced (`bred_cost`).
pub open spec fn ga_bred(m: Costs, dests: Seq<u8>, pop: Seq<Cromosoma>, d: Seq<u64>, c1: Cromosoma, c2: Cromosoma) -> bool {
    exists|p1: int, p2: int, crossed: bool, a1: Seq<u8>, a2: Seq<u8>|
        0 <= p1 < N_CROMOSOMA && 0 <= p2 < N_CROMOSOMA && pair_draws(pop, d, p1, p2, crossed)
            && #[trigger] aex_or_copy(pop[p1].palets@, pop[p2].palets@, crossed, a1, a2)
            && (if drawn_within(d[7], MUT_STEPS) {
                exists|k: int|
                    8 <= k <= d.len() && #[trigger] simple_draws(d.take(8), d.take(k), a1, c1.palets@) && simple_draws(
                        d.take(k),
                        d,
                        a2,
                        c2.palets@,
                    )
            } else {
                c1.palets@ == a1 && c2.palets@ == a2 && d.len() == 8
            })
            && c1.cost == bred_cost(m, dests, pop[p1], crossed, c1.palets@)
            && c2.cost == bred_cost(m, dests, pop[p2], crossed, c2.palets@)
}

/// Number of pairs of children bred per generation.
pub const PAIRS: usize = N_CROMOSOMA / 2 - 2;

impl<'a> Genetic<'a> {
    /// One pair of children: two parents picked by tournaments of `K`, crossed
    /// (AEX) with probability 85/100 (`CROSS_STEPS`) or else copied, both
    /// children mutated (`Simple`) with probability 5/100 (`MUT_STEPS`), and
    /// priced. `ga_bred` states them over the draws taken.
    #[verifier::spinoff_prover]
    fn breed(&self, rng: &mut RNG) -> (c: (Cromosoma, Cromosoma))
        requires
            costs_fit(self.costs()),
            valid_palets(self.palets()),
            self.palets().len() == N_PALETS,
            self.population().len() == N_CROMOSOMA,
            valid_population(self.population()),
        ensures
            old(rng).draws().is_prefix_of(final(rng).draws()),
            ga_bred(
                self.costs(),
                self.palets(),
                self.population(),
                final(rng).draws().skip(old(rng).draws().len() as int),
                c.0,
                c.1,
            ),
            is_perm(c.0.palets@, N_PALETS as int),
            is_perm(c.1.palets@, N_PALETS as int),
    {
        let ghost pop = self.poblacion@;
        let ghost d_start = rng.draws();
        let a = rng.next() % N_CROMOSOMA;
        let ghost r0 = rng.draws();
        let b = rng.next() % N_CROMOSOMA;
        let ghost r1 = rng.draws();
        let parent1 = tournament(&self.poblacion, a, b);
        let _index_x = rng.next() % N_CROMOSOMA;
        let ghost r2 = rng.draws();
        let x = rng.next() % N_CROMOSOMA;
        let ghost r3 = rng.draws();
        let _index_y = rng.next() % N_CROMOSOMA;
        let ghost r4 = rng.draws();
        let y = rng.next() % N_CROMOSOMA;
        let ghost r5 = rng.draws();
        let parent2 = tournament(&self.poblacion, x, y);
        proof {
            assert(parent1 == tourney(pop, a as int, b as int));
            assert(parent2 == tourney(pop, x as int, y as int));
            assert(is_perm(self.poblacion@[parent1 as int].palets@, N_PALETS as int));
            assert(is_perm(self.poblacion@[parent2 as int].palets@, N_PALETS as int));
        }
        let crossed = rng.next_unit_bits() <= CROSS_STEPS;
        let ghost r6 = rng.draws();
        let (mut c1, mut c2) = if crossed {
            CrossType::AEX.cross(&self.poblacion[parent1], &self.poblacion[parent2], rng)
        } else {
            (self.poblacion[parent1].clone(), self.poblacion[parent2].clone())
        };
        let ghost a1 = c1.palets@;
        let ghost a2 = c2.palets@;
        proof {
            assert(aex_or_copy(pop[parent1 as int].palets@, pop[parent2 as int].palets@, crossed, a1, a2));
            assert(c1.cost == if crossed { 0 } else { pop[parent1 as int].cost });
            assert(c2.cost == if crossed { 0 } else { pop[parent2 as int].cost });
        }
        let mutated = rng.next_unit_bits() <= MUT_STEPS;
        let ghost r7 = rng.draws();
        let ghost seg8 = seq![r0.last(), r1.last(), r2.last(), r3.last(), r4.last(), r5.last(), r6.last(), r7.last()];
        proof {
            assert(r0 =~= d_start.push(r0.last()));
            assert(r1 =~= r0.push(r1.last()));
            assert(r2 =~= r1.push(r2.last()));
            assert(r3 =~= r2.push(r3.last()));
            assert(r4 =~= r3.push(r4.last()));
            assert(r5 =~= r4.push(r5.last()));
            assert(r6 =~= r5.push(r6.last()));
            assert(r7 =~= r6.push(r7.last()));
            assert(r7 =~= d_start + seg8);
            assert(drawn_index(seg8[0]) == a);
            assert(drawn_index(seg8[1]) == b);
            assert(drawn_index(seg8[3]) == x);
            assert(drawn_index(seg8[5]) == y);
            assert(crossed == drawn_within(seg8[6], CROSS_STEPS));
            assert(mutated == drawn_within(seg8[7], MUT_STEPS));
        }
        let ghost mut r8 = r7;
        if mutated {
            MutType::Simple.apply(&mut c1, rng);
            proof {
                r8 = rng.draws();
            }
            MutType::Simple.apply(&mut c2, rng);
            proof {
                assert(one_swap(a1, c1.palets@));
                assert(one_swap(a2, c2.palets@));
            }
        }
        let ghost seg = rng.draws().skip(d_start.len() as int);
        proof {
            if mutated {
                let k = r8.len() - d_start.len();
                assert(r8.is_prefix_of(rng.draws()));
                assert(r8 =~= d_start + seg.take(k));
                assert(r7 =~= d_start + seg.take(8));
                assert(rng.draws() =~= d_start + seg);
                lemma_simple_draws_shift(d_start, seg.take(8), seg.take(k), a1, c1.palets@);
                lemma_simple_draws_shift(d_start, seg.take(k), seg, a2, c2.palets@);
                assert(simple_draws(seg.take(8), seg.take(k), a1, c1.palets@));
            }
            assert(r7.is_prefix_of(rng.draws()));
            assert(rng.draws() =~= d_start + seg);
            assert(seg.take(8) =~= seg8);
            assert(seg[0] == seg8[0] && seg[1] == seg8[1] && seg[3] == seg8[3] && seg[5] == seg8[5]);
            assert(seg[6] == seg8[6] && seg[7] == seg8[7]);
            if !mutated {
                assert(seg =~= seg8);
            }
            assert(pair_draws(pop, seg, parent1 as int, parent2 as int, crossed));
        }
        proof {
            lemma_chrom_cost_fits(*self.cost_mat, self.palets@, c1.palets@);
            lemma_chrom_cost_fits(*self.cost_mat, self.palets@, c2.palets@);
        }
        c1.cost(self.palets, self.cost_mat);
        c2.cost(self.palets, self.cost_mat);
        proof {
            assert(c1.cost == bred_cost(*self.cost_mat, self.palets@, pop[parent1 as int], crossed, c1.palets@));
            assert(c2.cost == bred_cost(*self.cost_mat, self.palets@, pop[parent2 as int], crossed, c2.palets@));
            assert(ga_bred(*self.cost_mat, self.palets@, pop, seg, c1, c2));
        }
        proof {
            assert(rng.draws().skip(d_start.len() as int) == seg);
        }
        (c1, c2)
    }

    /// One generation: the population is sorted by cost (stable); `PAIRS`
    /// times, two parents are picked by tournaments of `K`, crossed (AEX) with
    /// probability 85/100 (`CROSS_STEPS`) or else copied, both children
    /// mutated (`Simple`) with probability 5/100 (`MUT_STEPS`), and priced;
    /// the `N_ELITISM` best of the sorted population follow the children, and
    /// the first child is dropped. `ga_generation` states the result over the
    /// draws taken.
    pub fn next_generation(&mut self, rng: &mut RNG)
        requires
            costs_fit(old(self).costs()),
            valid_palets(old(self).palets()),
            old(self).palets().len() == N_PALETS,
            old(self).population().len() == N_CROMOSOMA,
            valid_population(old(self).population()),
        ensures
            final(self).costs() == old(self).costs(),
            final(self).palets() == old(self).palets(),
            final(self).population().len() == N_CROMOSOMA,
            valid_population(final(self).population()),
            old(rng).draws().is_prefix_of(final(rng).draws()),
            ga_generation(
                old(self).costs(),
                old(self).palets(),
                old(self).population(),
                final(self).population(),
                final(rng).draws().skip(old(rng).draws().len() as int),
            ),
            forall|j: int| 0 <= j < N_CROMOSOMA ==> final(self).population()[N_CROMOSOMA - N_ELITISM].cost
                <= #[trigger] old(self).population()[j].cost,
    {
        let sorted = sort_by_cost(&self.poblacion);
        let ghost sorted_view = sorted@;
        self.poblacion = sorted;
        let mut next_gen: Vec<Cromosoma> = Vec::new();
        let mut pair: usize = 0;
        let ghost mut segs: Seq<Seq<u64>> = Seq::empty();
        while pair < PAIRS
            invariant
                pair <= PAIRS,
                self.poblacion@ == sorted_view,
                self.poblacion@.len() == N_CROMOSOMA,
                valid_population(self.poblacion@),
                costs_fit(*self.cost_mat),
                valid_palets(self.palets@),
                self.palets@.len() == N_PALETS,
                next_gen@.len() == 2 * pair,
                valid_population(next_gen@),
                self.cost_mat == old(self).cost_mat,
                self.palets == old(self).palets,
                segs.len() == pair,
                rng.draws() == old(rng).draws() + segs.flatten(),
                forall|p: int| 0 <= p < pair ==> #[trigger] ga_bred(*self.cost_mat, self.palets@, sorted_view, segs[p], next_gen@[2 * p], next_gen@[2 * p + 1]),
            decreases PAIRS - pair,
        {
            let ghost d_start = rng.draws();
            let (c1, c2) = self.breed(rng);
            let ghost seg = rng.draws().skip(d_start.len() as int);
            proof {
                assert(rng.draws() =~= d_start + seg);
            }
            let ghost before = next_gen@;
            let ghost o_segs = segs;
            next_gen.push(c1);
            next_gen.push(c2);
            proof {
                segs = segs.push(seg);
                o_segs.lemma_flatten_push(seg);
                assert(rng.draws() =~= old(rng).draws() + segs.flatten());
                assert forall|p: int| 0 <= p < pair + 1 implies #[trigger] ga_bred(*self.cost_mat, self.palets@, sorted_view, segs[p], next_gen@[2 * p], next_gen@[2 * p + 1]) by {
                    if p < pair {
                        assert(next_gen@[2 * p] == before[2 * p]);
                        assert(next_gen@[2 * p + 1] == before[2 * p + 1]);
                        assert(segs[p] == o_segs[p]);
                    }
                }
            }
            pair = pair + 1;
        }
        let mut e: usize = 0;
        while e < N_ELITISM
            invariant
                e <= N_ELITISM,
                self.poblacion@ =~= sorted_view.skip(e as int),
                sorted_view.len() == N_CROMOSOMA,
                valid_population(sorted_view),
                next_gen@.len() == 2 * PAIRS + e,
                valid_population(next_gen@),
                self.cost_mat == old(self).cost_mat,
                self.palets == old(self).palets,
                forall|x: int| 0 <= x < e ==> #[trigger] next_gen@[2 * PAIRS + x] == sorted_view[x],
                segs.len() == PAIRS,
                rng.draws() == old(rng).draws() + segs.flatten(),
                forall|p: int| 0 <= p < PAIRS ==> #[trigger] ga_bred(*self.cost_mat, self.palets@, sorted_view, segs[p], next_gen@[2 * p], next_gen@[2 * p + 1]),
            decreases N_ELITISM - e,
        {
            let elite = self.poblacion.remove(0);
            let ghost before = next_gen@;
            next_gen.push(elite);
            proof {
                assert forall|p: int| 0 <= p < PAIRS implies #[trigger] ga_bred(*self.cost_mat, self.palets@, sorted_view, segs[p], next_gen@[2 * p], next_gen@[2 * p + 1]) by {
                    assert(next_gen@[2 * p] == before[2 * p]);
                    assert(next_gen@[2 * p + 1] == before[2 * p + 1]);
                }
            }
            e = e + 1;
        }
        let ghost ng = next_gen@;
        self.poblacion = next_gen;
        self.poblacion.remove(0);
        proof {
            assert(self.poblacion@ =~= ng.remove(0));
            assert(sorted_by_cost(old(self).population(), sorted_view));
            assert forall|x: int| 0 <= x < N_ELITISM implies #[trigger] self.poblacion@[N_CROMOSOMA - N_ELITISM + x].palets@
                == sorted_view[x].palets@ && self.poblacion@[N_CROMOSOMA - N_ELITISM + x].cost == sorted_view[x].cost by {
                assert(self.poblacion@[N_CROMOSOMA - N_ELITISM + x] == ng[2 * PAIRS + x]);
            }
            assert(valid_population(self.poblacion@)) by {
                assert forall|x: int| 0 <= x < self.poblacion@.len() implies is_perm(#[trigger] self.poblacion@[x].palets@, N_PALETS as int) by {
                    assert(self.poblacion@[x] == ng[x + 1]);
                }
            }
            assert forall|x: int| 0 <= x < N_ELITISM implies #[trigger] self.population()[N_CROMOSOMA - N_ELITISM + x].palets@
                == sorted_view[x].palets@ && self.population()[N_CROMOSOMA - N_ELITISM + x].cost == sorted_view[x].cost by {
                assert(self.poblacion@[N_CROMOSOMA - N_ELITISM + x] == ng[2 * PAIRS + x]);
            }
            assert forall|p: int| 1 <= p < PAIRS implies #[trigger] ga_bred(*self.cost_mat, self.palets@, sorted_view, segs[p], self.population()[2 * p - 1], self.population()[2 * p]) by {
                assert(self.poblacion@[2 * p - 1] == ng[2 * p]);
                assert(self.poblacion@[2 * p] == ng[2 * p + 1]);
                assert(ga_bred(*self.cost_mat, self.palets@, sorted_view, segs[p], ng[2 * p], ng[2 * p + 1]));
            }
            assert(self.poblacion@[0] == ng[1]);
            let p0: int = 0;
            assert(ga_bred(*self.cost_mat, self.palets@, sorted_view, segs[p0], ng[2 * p0], ng[2 * p0 + 1]));
            assert(ga_bred(*self.cost_mat, self.palets@, sorted_view, segs[0], ng[0], self.population()[0]));
            assert(rng.draws().skip(old(rng).draws().len() as int) =~= segs.flatten());
            lemma_sorted_first_is_cheapest(old(self).population(), sorted_view);
            let x0: int = 0;
            assert(ng[2 * PAIRS + x0] == sorted_view[x0]);
            assert(self.poblacion@[N_CROMOSOMA - N_ELITISM] == ng[2 * PAIRS + x0]);
        }
    }

    /// Runs `N_GEN` generations (`next_generation`). Before the generations
    /// counted a multiple of 100 (from 1), the lowest cost of the population
    /// is recorded with that count; the records are returned in order. The
    /// recorded costs never rise, and none is above what the population
    /// ends with.
    pub fn run(&mut self, rng: &mut RNG) -> (records: Vec<(usize, usize)>)
        requires
            costs_fit(old(self).costs()),
            valid_palets(old(self).palets()),
            old(self).palets().len() == N_PALETS,
            old(self).population().len() == N_CROMOSOMA,
            valid_population(old(self).population()),
        ensures
            final(self).costs() == old(self).costs(),
            final(self).palets() == old(self).palets(),
            final(self).population().len() == N_CROMOSOMA,
            valid_population(final(self).population()),
            records@.len() == N_GEN / 100,
            forall|i: int| 0 <= i < records@.len() ==> (#[trigger] records@[i]).0 == 100 * (i + 1),
            forall|i: int, j: int| 0 <= i < records@.len() && 0 <= j < N_CROMOSOMA ==> (#[trigger] records@[i]).1 <= #[trigger] old(self).population()[j].cost,
            forall|i: int, k: int| 0 <= i < k < records@.len() ==> (#[trigger] records@[k]).1 <= (#[trigger] records@[i]).1,
            forall|i: int| 0 <= i < records@.len() ==> #[trigger] cost_within(final(self).population(), records@[i].1 as int),
            exists|pops: Seq<Seq<Cromosoma>>, dss: Seq<Seq<u64>>|
                #[trigger] ga_run(old(self).costs(), old(self).palets(), old(self).population(), pops, records@, dss)
                    && pops[N_GEN as int] == final(self).population() && final(rng).draws() == old(rng).draws() + dss.flatten(),
    {
        let mut records: Vec<(usize, usize)> = Vec::new();
        let mut gen: usize = 0;
        let ghost mut pops: Seq<Seq<Cromosoma>> = seq![self.population()];
        let ghost mut dss: Seq<Seq<u64>> = Seq::empty();
        proof {
            assert forall|j: int| 0 <= j < N_CROMOSOMA implies #[trigger] cost_within(self.population(), old(self).population()[j].cost as int) by {
                assert(self.population()[j].cost <= old(self).population()[j].cost);
            }
        }
        while gen < N_GEN
            invariant
                gen <= N_GEN,
                costs_fit(self.costs()),
                valid_palets(self.palets()),
                self.palets().len() == N_PALETS,
                self.costs() == old(self).costs(),
                self.palets() == old(self).palets(),
                self.population().len() == N_CROMOSOMA,
                valid_population(self.population()),
                old(self).population().len() == N_CROMOSOMA,
                records@.len() == gen / 100,
                forall|i: int| 0 <= i < records@.len() ==> (#[trigger] records@[i]).0 == 100 * (i + 1),
                forall|i: int, j: int| 0 <= i < records@.len() && 0 <= j < N_CROMOSOMA ==> (#[trigger] records@[i]).1 <= #[trigger] old(self).population()[j].cost,
                forall|i: int, k: int| 0 <= i < k < records@.len() ==> (#[trigger] records@[k]).1 <= (#[trigger] records@[i]).1,
                forall|i: int| 0 <= i < records@.len() ==> #[trigger] cost_within(self.population(), records@[i].1 as int),
                forall|j: int| 0 <= j < N_CROMOSOMA ==> #[trigger] cost_within(self.population(), old(self).population()[j].cost as int),
                pops.len() == gen + 1,
                pops[0] == old(self).population(),
                pops[gen as int] == self.population(),
                dss.len() == gen,
                rng.draws() == old(rng).draws() + dss.flatten(),
                forall|g: int| 0 <= g < gen ==> #[trigger] ga_generation(self.costs(), self.palets(), pops[g], pops[g + 1], dss[g]),
                forall|i: int| 0 <= i < records@.len() ==> lowest_cost(pops[100 * (i + 1) - 1], (#[trigger] records@[i]).1 as int),
            decreases N_GEN - gen,
        {
            gen = gen + 1;
            if gen % 100 == 0 {
                let c = self.min_cost();
                let ghost before = records@;
                proof {
                    assert forall|i: int| 0 <= i < before.len() implies c <= #[trigger] before[i].1 by {
                        assert(cost_within(self.population(), before[i].1 as int));
                        let j = choose|j: int| 0 <= j < self.population().len() && #[trigger] self.population()[j].cost <= before[i].1;
                        assert(c <= self.population()[j].cost);
                    }
                    assert forall|j: int| 0 <= j < N_CROMOSOMA implies c <= #[trigger] old(self).population()[j].cost by {
                        assert(cost_within(self.population(), old(self).population()[j].cost as int));
                        let l = choose|l: int| 0 <= l < self.population().len() && #[trigger] self.population()[l].cost <= old(self).population()[j].cost;
                        assert(c <= self.population()[l].cost);
                    }
                    assert((gen - 1) / 100 + 1 == gen / 100) by (nonlinear_arith)
                        requires
                            gen % 100 == 0,
                            gen >= 1,
                    ;
                }
                records.push((gen, c));
                proof {
                    assert(records@ == before.push((gen, c)));
                    let b: int = before.len() as int;
                    assert(gen == 100 * (b + 1)) by (nonlinear_arith)
                        requires
                            b == (gen - 1) / 100,
                            gen % 100 == 0,
                            gen >= 1,
                    ;
                    let cj = choose|j: int| 0 <= j < self.population().len() && c == #[trigger] self.population()[j].cost;
                    assert(cost_within(self.population(), c as int));
                    assert(pops[100 * (b + 1) - 1] == self.population());
                    assert(lowest_cost(self.population(), c as int));
                    assert forall|i: int| 0 <= i < records@.len() implies lowest_cost(pops[100 * (i + 1) - 1], (#[trigger] records@[i]).1 as int) by {
                        if i < b {
                            assert(records@[i] == before[i]);
                        }
                    }
                    assert forall|i: int, k: int| 0 <= i < k < records@.len() implies (#[trigger] records@[k]).1 <= (#[trigger] records@[i]).1 by {
                        if k == b {
                            assert(c <= before[i].1);
                        } else {
                            assert(records@[k] == before[k] && records@[i] == before[i]);
                        }
                    }
                    assert forall|i: int| 0 <= i < records@.len() implies #[trigger] cost_within(self.population(), records@[i].1 as int) by {
                        if i < b {
                            assert(records@[i] == before[i]);
                        }
                    }
                    assert forall|i: int, j: int| 0 <= i < records@.len() && 0 <= j < N_CROMOSOMA implies (#[trigger] records@[i]).1 <= #[trigger] old(self).population()[j].cost by {
                        if i < b {
                            assert(records@[i] == before[i]);
                        }
                    }
                }
            } else {
                proof {
                    assert((gen - 1) / 100 == gen / 100) by (nonlinear_arith)
                        requires
                            gen % 100 != 0,
                            gen >= 1,
                    ;
                }
            }
            let ghost pop0 = self.population();
            let ghost draws0 = rng.draws();
            self.next_generation(rng);
            proof {
                let ghost o_pops = pops;
                let ghost o_dss = dss;
                let ghost ds = rng.draws().skip(draws0.len() as int);
                pops = pops.push(self.population());
                dss = dss.push(ds);
                o_dss.lemma_flatten_push(ds);
                assert(rng.draws() =~= draws0 + ds);
                assert(rng.draws() =~= old(rng).draws() + dss.flatten());
                assert forall|g: int| 0 <= g < gen implies #[trigger] ga_generation(self.costs(), self.palets(), pops[g], pops[g + 1], dss[g]) by {
                    if g < gen - 1 {
                        assert(ga_generation(self.costs(), self.palets(), o_pops[g], o_pops[g + 1], o_dss[g]));
                        assert(pops[g] == o_pops[g] && pops[g + 1] == o_pops[g + 1] && dss[g] == o_dss[g]);
                    } else {
                        assert(pops[g] == pop0);
                    }
                }
                assert forall|i: int| 0 <= i < records@.len() implies lowest_cost(pops[100 * (i + 1) - 1], (#[trigger] records@[i]).1 as int) by {
                    assert(lowest_cost(o_pops[100 * (i + 1) - 1], records@[i].1 as int));
                    assert(100 * (i + 1) <= gen) by (nonlinear_arith)
                        requires
                            0 <= i < records@.len(),
                            records@.len() == gen / 100,
                    ;
                    assert(pops[100 * (i + 1) - 1] == o_pops[100 * (i + 1) - 1]);
                }
                let e: int = N_CROMOSOMA - N_ELITISM;
                assert forall|i: int| 0 <= i < records@.len() implies #[trigger] cost_within(self.population(), records@[i].1 as int) by {
                    assert(cost_within(pop0, records@[i].1 as int));
                    let j = choose|j: int| 0 <= j < pop0.len() && #[trigger] pop0[j].cost <= records@[i].1;
                    assert(self.population()[e].cost <= pop0[j].cost);
                }
                assert forall|j: int| 0 <= j < N_CROMOSOMA implies #[trigger] cost_within(self.population(), old(self).population()[j].cost as int) by {
                    assert(cost_within(pop0, old(self).population()[j].cost as int));
                    let l = choose|l: int| 0 <= l < pop0.len() && #[trigger] pop0[l].cost <= old(self).population()[j].cost;
                    assert(self.population()[e].cost <= pop0[l].cost);
                }
            }
        }
        proof {
            assert(ga_run(old(self).costs(), old(self).palets(), old(self).population(), pops, records@, dss));
        }
        records
    }

    /// Lowest cost of the population.
    pub fn min_cost(&self) -> (c: usize)
        requires
            self.population().len() > 0,
        ensures
            exists|i: int| 0 <= i < self.population().len() && c == #[trigger] self.population()[i].cost,
            forall|i: int| 0 <= i < self.population().len() ==> c <= #[trigger] self.population()[i].cost,
    {
        min_cost(&self.poblacion)
    }

    /// Prices every chromosome whose cost is not yet known, and gives the
    /// cost of the first cheapest one and the plan it encodes.
    pub fn best_plan(&mut self) -> (res: (usize, Trucks))
        requires
            costs_fit(old(self).costs()),
            valid_palets(old(self).palets()),
            old(self).palets().len() == N_PALETS,
            old(self).population().len() > 0,
            valid_population(old(self).population()),
        ensures
            final(self).costs() == old(self).costs(),
            final(self).palets() == old(self).palets(),
            final(self).population().len() == old(self).population().len(),
            valid_population(final(self).population()),
            forall|i: int| 0 <= i < final(self).population().len() ==> (#[trigger] final(self).population()[i]).palets@
                == old(self).population()[i].palets@ && final(self).population()[i].cost == kept_cost(
                old(self).costs(),
                old(self).palets(),
                old(self).population()[i],
            ),
            exists|b: int| 0 <= b < final(self).population().len() && res.0 == #[trigger] final(self).population()[b].cost
                && plan_of(res.1, final(self).population()[b].palets@, old(self).palets())
                && chrom_cost(old(self).costs(), old(self).palets(), final(self).population()[b].palets@)
                    == trucks_cost(old(self).costs(), res.1)
                && forall|i: int| 0 <= i < b ==> res.0 < #[trigger] final(self).population()[i].cost,
            forall|i: int| 0 <= i < final(self).population().len() ==> res.0 <= #[trigger] final(self).population()[i].cost,
    {
        let n = self.poblacion.len();
        let mut priced: Vec<Cromosoma> = Vec::new();
        let mut k: usize = 0;
        while k < n
            invariant
                k <= n,
                n == self.poblacion@.len(),
                valid_population(self.poblacion@),
                costs_fit(*self.cost_mat),
                valid_palets(self.palets@),
                self.palets@.len() == N_PALETS,
                priced@.len() == k,
                valid_population(priced@),
                self.palets == old(self).palets,
                self.cost_mat == old(self).cost_mat,
                self.poblacion == old(self).poblacion,
                forall|a: int| 0 <= a < k ==> (#[trigger] priced@[a]).palets@ == self.poblacion@[a].palets@
                    && priced@[a].cost == kept_cost(*self.cost_mat, self.palets@, self.poblacion@[a]),
            decreases n - k,
        {
            let mut p = self.poblacion[k].clone();
            proof {
                assert(is_perm(self.poblacion@[k as int].palets@, N_PALETS as int));
                lemma_chrom_cost_fits(*self.cost_mat, self.palets@, p.palets@);
            }
            p.cost(self.palets, self.cost_mat);
            priced.push(p);
            k = k + 1;
        }
        self.poblacion = priced;
        let b = best_index(&self.poblacion);
        let mut sol: Trucks = [[0u8; TRUCK_CAP]; N_TRUCKS];
        let mut t: usize = 0;
        proof {
            assert(is_perm(self.poblacion@[b as int].palets@, N_PALETS as int));
        }
        while t < N_TRUCKS
            invariant
                t <= N_TRUCKS,
                b < self.poblacion@.len(),
                is_perm(self.poblacion@[b as int].palets@, N_PALETS as int),
                self.palets@.len() == N_PALETS,
                self.palets == old(self).palets,
                forall|x: int, j: int| 0 <= x < t && 0 <= j < TRUCK_CAP ==> #[trigger] sol[x][j] == self.palets@[self.poblacion@[b as int].palets@[x * TRUCK_CAP + j] as int],
            decreases N_TRUCKS - t,
        {
            let mut j: usize = 0;
            while j < TRUCK_CAP
                invariant
                    t < N_TRUCKS,
                    j <= TRUCK_CAP,
                    b < self.poblacion@.len(),
                    is_perm(self.poblacion@[b as int].palets@, N_PALETS as int),
                    self.palets@.len() == N_PALETS,
                    self.palets == old(self).palets,
                    forall|x: int, y: int| 0 <= x < t && 0 <= y < TRUCK_CAP ==> #[trigger] sol[x][y] == self.palets@[self.poblacion@[b as int].palets@[x * TRUCK_CAP + y] as int],
                    forall|y: int| 0 <= y < j ==> #[trigger] sol[t as int][y] == self.palets@[self.poblacion@[b as int].palets@[t * TRUCK_CAP + y] as int],
                decreases TRUCK_CAP - j,
            {
                proof {
                    assert(t * TRUCK_CAP + j < N_PALETS) by (nonlinear_arith)
                        requires t < N_TRUCKS, j < TRUCK_CAP;
                }
                let id = self.poblacion[b].palets[t * TRUCK_CAP + j];
                sol[t][j] = self.palets[id as usize];
                j = j + 1;
            }
            t = t + 1;
        }
        proof {
            assert(plan_of(sol, self.poblacion@[b as int].palets@, old(self).palets()));
            assert(plan_of(sol, self.population()[b as int].palets@, old(self).palets()));
            assert(self.poblacion@[b as int].cost == self.population()[b as int].cost);
            lemma_chrom_cost_is_plan_cost(self.costs(), self.palets@, self.poblacion@[b as int].palets@, sol);
        }
        (self.poblacion[b].cost, sol)
    }
}

/// The shorter of two lengths.
pub open spec fn min_len(a: Seq<u8>, b: Seq<u8>) -> int {
    if a.len() < b.len() {
        a.len() as int
    } else {
        b.len() as int
    }
}

/// Number of positions below `n` where `a` and `b` differ in parity.
pub open spec fn parity_diff(a: Seq<u8>, b: Seq<u8>, n: int) -> int
    decreases n,
{
    if n <= 0 {
        0
    } else {
        parity_diff(a, b, n - 1) + if a[n - 1] % 2 == b[n - 1] % 2 {
            0int
        } else {
            1int
        }
    }
}

/// `diff` is symmetric, and nothing differs from itself.
pub proof fn lemma_parity_diff_symmetric(a: Seq<u8>, b: Seq<u8>, n: int)
    ensures
        parity_diff(a, b, n) == parity_diff(b, a, n),
        parity_diff(a, a, n) == 0,
    decreases n,
{
    if n > 0 {
        lemma_parity_diff_symmetric(a, b, n - 1);
    }
}

} // verus!
