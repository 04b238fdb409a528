//! Simulated annealing: the decisions of the search, one step at a time.
//!
//! The temperature and the chance of taking a worse plan are real numbers;
//! they are left to the caller, who hands each decision back as a `bool`.

use super::model::{
    costs_fit, flat, is_dealt, lemma_cost_fits, lemma_drawn_valid, lemma_loaded_full, move_between_trucks,
    move_in_truck, trucks_cost, valid_palets, valid_trucks, drawn_since,
};
use super::{cost, gen_neighbour, gen_sol, neighbour_draws, open_drawn, Costs, Palets, Trucks, CBT, N, N_TRUCKS, TRUCK_CAP};
use crate::rng::RNG;
use vstd::prelude::*;

verus! {

broadcast use vstd::multiset::group_multiset_properties;

/// Number of annealing steps, at most.
pub const TOTAL_ANN: usize = 50 * N;

/// Number of candidate plans, at most (checked before each annealing step).
pub const TOTAL_ITS: usize = 5_000 * N;

/// Number of candidate plans tried at each temperature.
pub const LT: usize = 100;

/// Simulated annealing over the palets.
pub struct SimulatedAnnealing<'a> {
    cost_mat: &'a Costs,
    palets: Palets,
    #[allow(unused)]
    trucks: Trucks,
}

/// Where a simulated annealing stands.
pub struct Annealing {
    best_sol: Trucks,
    best_cost: usize,
    switch: bool,
    left_ann: usize,
    left_its: usize,
    trials: usize,
    pending: Option<(Trucks, usize)>,
}

impl<'a> SimulatedAnnealing<'a> {
    /// The cost matrix.
    pub closed spec fn costs(&self) -> Costs {
        *self.cost_mat
    }

    /// The palets.
    pub closed spec fn palets(&self) -> Seq<u8> {
        self.palets@
    }

    pub fn new(cost_mat: &'a Costs, palets: Palets) -> (s: Self)
        ensures
            s.costs() == *cost_mat,
            s.palets() == palets@,
    {
        SimulatedAnnealing { cost_mat, palets, trucks: [[0u8; TRUCK_CAP]; N_TRUCKS] }
    }

    /// An annealing from the plan `start`: no step taken yet, and moves begin
    /// with an exchange between trucks.
    pub fn begin(&self, start: Trucks) -> (st: Annealing)
        requires
            costs_fit(self.costs()),
            valid_trucks(start),
            flat(start).to_multiset() == self.palets().to_multiset(),
        ensures
            st.ok(self.costs(), self.palets()),
            st.best_sol() == start,
            st.best_cost() == trucks_cost(self.costs(), start),
            st.switch(),
            st.annealings() == 0,
            st.trials_done() == 0,
            st.trials_left() == 0,
            st.pending() is None,
    {
        proof {
            lemma_cost_fits(self.costs(), start);
        }
        let best_cost = cost(self.cost_mat, &start);
        Annealing {
            best_sol: start,
            best_cost,
            switch: true,
            left_ann: 0,
            left_its: 0,
            trials: 0,
            pending: None,
        }
    }

    /// An annealing from a random plan of `gen_sol`.
    pub fn start(&self, rng: &mut RNG) -> (st: Annealing)
        requires
            costs_fit(self.costs()),
            valid_palets(self.palets()),
            self.palets().len() == N_TRUCKS * TRUCK_CAP,
        ensures
            st.ok(self.costs(), self.palets()),
            is_dealt(self.palets(), st.best_sol()),
            valid_trucks(st.best_sol()),
            flat(st.best_sol()).to_multiset() == self.palets().to_multiset(),
            st.best_cost() == trucks_cost(self.costs(), st.best_sol()),
            st.switch(),
            st.annealings() == 0,
            st.trials_done() == 0,
            st.trials_left() == 0,
            st.pending() is None,
            old(rng).draws().is_prefix_of(final(rng).draws()),
            open_drawn(self.palets(), drawn_since(old(rng).draws(), final(rng).draws()), st.best_sol()),
    {
        let sol = gen_sol(&self.palets, rng);
        proof {
            lemma_loaded_full(sol, self.palets@);
            lemma_drawn_valid(sol, self.palets@);
        }
        self.begin(sol)
    }
}

impl Annealing {
    /// The best plan so far.
    pub closed spec fn best_sol(&self) -> Trucks {
        self.best_sol
    }

    /// The cost of the best plan.
    pub closed spec fn best_cost(&self) -> usize {
        self.best_cost
    }

    /// Whether the next move exchanges palets between trucks.
    pub closed spec fn switch(&self) -> bool {
        self.switch
    }

    /// Number of annealing steps begun.
    pub closed spec fn annealings(&self) -> usize {
        self.left_ann
    }

    /// Number of candidate plans drawn.
    pub closed spec fn trials_done(&self) -> usize {
        self.left_its
    }

    /// Number of candidate plans still to draw at this temperature.
    pub closed spec fn trials_left(&self) -> usize {
        self.trials
    }

    /// The candidate drawn and not yet settled, with its cost.
    pub closed spec fn pending(&self) -> Option<(Trucks, usize)> {
        self.pending
    }

    /// The state is sound for cost matrix `m` and palets `ps`: every plan in it
    /// holds exactly the palets and is priced right, and the counts stay
    /// within their bounds.
    pub closed spec fn ok(&self, m: Costs, ps: Seq<u8>) -> bool {
        &&& costs_fit(m)
        &&& valid_trucks(self.best_sol)
        &&& flat(self.best_sol).to_multiset() == ps.to_multiset()
        &&& self.best_cost == trucks_cost(m, self.best_sol)
        &&& self.left_ann <= TOTAL_ANN
        &&& self.left_its + self.trials <= LT * self.left_ann
        &&& self.pending matches Some((c, k)) ==> {
            &&& valid_trucks(c)
            &&& flat(c).to_multiset() == ps.to_multiset()
            &&& k == trucks_cost(m, c)
        }
    }

    /// The best plan so far, and its cost.
    pub fn best(&self) -> (r: (Trucks, usize))
        ensures
            r == (self.best_sol(), self.best_cost()),
            forall|m: Costs, ps: Seq<u8>| #[trigger] self.ok(m, ps) ==> {
                &&& r.1 == trucks_cost(m, r.0)
                &&& valid_trucks(r.0)
                &&& flat(r.0).to_multiset() == ps.to_multiset()
            },
    {
        (self.best_sol, self.best_cost)
    }

    /// Number of candidate plans drawn.
    pub fn evaluations(&self) -> (n: usize)
        ensures
            n == self.trials_done(),
    {
        self.left_its
    }

    /// Whether another annealing step is due: fewer than `TOTAL_ANN` begun and
    /// fewer than `TOTAL_ITS` candidates drawn.
    pub fn running(&self) -> (b: bool)
        ensures
            b == (self.annealings() < TOTAL_ANN && self.trials_done() < TOTAL_ITS),
    {
        self.left_ann < TOTAL_ANN && self.left_its < TOTAL_ITS
    }

    /// Whether candidates are still to be drawn at this temperature.
    pub fn in_step(&self) -> (b: bool)
        ensures
            b == (self.trials_left() > 0),
    {
        self.trials > 0
    }

    /// Begins an annealing step: `LT` candidates are to be drawn.
    pub fn begin_step(&mut self)
        requires
            old(self).annealings() < TOTAL_ANN,
        ensures
            final(self).annealings() == old(self).annealings() + 1,
            final(self).trials_left() == LT,
            final(self).trials_done() == old(self).trials_done(),
            final(self).best_sol() == old(self).best_sol(),
            final(self).best_cost() == old(self).best_cost(),
            final(self).switch() == old(self).switch(),
            final(self).pending() == old(self).pending(),
            forall|m: Costs, ps: Seq<u8>| #[trigger]
                old(self).ok(m, ps) && old(self).trials_left() == 0 ==> final(self).ok(m, ps),
    {
        self.left_ann = self.left_ann + 1;
        self.trials = LT;
    }

    /// Draws the next candidate: a neighbour of the best plan (between trucks
    /// or within one, as the switch says), which is held until `settle`.
    /// Gives its cost.
    pub fn propose(&mut self, sa: &SimulatedAnnealing, rng: &mut RNG) -> (c: usize)
        requires
            old(self).ok(sa.costs(), sa.palets()),
            old(self).trials_left() > 0,
        ensures
            final(self).ok(sa.costs(), sa.palets()),
            final(self).pending() matches Some((cand, k)) && k == c && (old(self).switch()
                ==> move_between_trucks(old(self).best_sol(), cand)) && (!old(self).switch()
                ==> move_in_truck(old(self).best_sol(), cand)),
            c == trucks_cost(sa.costs(), final(self).pending().unwrap().0),
            old(rng).draws().is_prefix_of(final(rng).draws()),
            neighbour_draws(
                old(self).switch(),
                drawn_since(old(rng).draws(), final(rng).draws()),
                old(self).best_sol(),
                final(self).pending().unwrap().0,
            ),
            final(self).trials_done() == old(self).trials_done() + 1,
            final(self).trials_left() == old(self).trials_left() - 1,
            final(self).annealings() == old(self).annealings(),
            final(self).best_sol() == old(self).best_sol(),
            final(self).best_cost() == old(self).best_cost(),
            final(self).switch() == old(self).switch(),
    {
        let cand = gen_neighbour(&self.best_sol, self.switch, rng);
        proof {
            lemma_cost_fits(sa.costs(), cand);
            assert(LT * self.left_ann <= LT * TOTAL_ANN) by (nonlinear_arith)
                requires
                    self.left_ann <= TOTAL_ANN,
            ;
        }
        let c = cost(sa.cost_mat, &cand);
        self.left_its = self.left_its + 1;
        self.trials = self.trials - 1;
        self.pending = Some((cand, c));
        c
    }

    /// Whether the candidate's cost `c` is below the best cost: such a
    /// candidate is taken whatever the temperature.
    pub fn improves(&self, c: usize) -> (b: bool)
        ensures
            b == (c < self.best_cost()),
    {
        c < self.best_cost
    }

    /// Settles the pending candidate: it becomes the best plan where it is
    /// cheaper or where `worse_accepted` says a worse plan is taken. The
    /// switch then flips, as `CBT` asks.
    pub fn settle(&mut self, worse_accepted: bool)
        requires
            old(self).pending() is Some,
        ensures
            ({
                let (cand, k) = old(self).pending()->0;
                if k < old(self).best_cost() || worse_accepted {
                    final(self).best_sol() == cand && final(self).best_cost() == k
                } else {
                    final(self).best_sol() == old(self).best_sol() && final(self).best_cost()
                        == old(self).best_cost()
                }
            }),
            final(self).switch() == if CBT { !old(self).switch() } else { old(self).switch() },
            final(self).pending() is None,
            final(self).annealings() == old(self).annealings(),
            final(self).trials_done() == old(self).trials_done(),
            final(self).trials_left() == old(self).trials_left(),
            forall|m: Costs, ps: Seq<u8>| #[trigger] old(self).ok(m, ps) ==> final(self).ok(m, ps),
    {
        if let Some((cand, k)) = self.pending {
            if k < self.best_cost || worse_accepted {
                self.best_sol = cand;
                self.best_cost = k;
            }
        }
        self.pending = None;
        if CBT {
            self.switch = !self.switch;
        }
    }
}

} // verus!
