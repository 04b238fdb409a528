use practica_one::algo::genetic::{Cromosoma, N_CROMOSOMA, N_ELITISM, PAIRS};
use practica_one::algo::memetic::{LocalSearchMM, LS_N, OPT_CD};
use practica_one::algo::{Costs, Memetic, Palets, N, N_PALETS};
use practica_one::rng::RNG;

fn matrix() -> Costs {
    (0..N)
        .map(|i| (0..N).map(|j| if i == j { 0 } else { (5 * i + 11 * j) % 37 + 2 }).collect())
        .collect()
}

fn palets() -> Palets {
    (0..N_PALETS).map(|k| ((k * 3) % 50 + 1) as u8).collect()
}

fn is_perm(ids: &[u8]) -> bool {
    let mut v = ids.to_vec();
    v.sort();
    v == (0..N_PALETS as u8).collect::<Vec<u8>>()
}

fn priced(c: &Cromosoma, ps: &Palets, m: &Costs) -> bool {
    let mut fresh = Cromosoma::new_with(c.palets.clone());
    fresh.cost(ps, m) == c.cost
}

#[test]
fn breed_pair_gives_priced_permutations() {
    let m = matrix();
    let ps = palets();
    let mut rng = RNG::new();
    let mm = Memetic::new(&m, &ps, "test", &mut rng);
    assert_eq!(mm.name(), "test");
    for _ in 0..10 {
        let (a, b) = mm.breed_pair(&mut rng);
        assert!(is_perm(&a.palets) && is_perm(&b.palets));
        assert!(priced(&a, &ps, &m) && priced(&b, &ps, &m));
    }
}

#[test]
fn a_generation_by_hand() {
    let m = matrix();
    let ps = palets();
    let mut rng = RNG::new();
    rng.set_new_seed(654321);
    let mut mm = Memetic::new(&m, &ps, "gen", &mut rng);
    let min = mm.begin_generation();
    assert_eq!(min, mm.best_cost());
    let children = mm.get_next_gen_st(&mut rng);
    assert_eq!(children.len(), 2 * PAIRS);
    let next_gen = mm.gather(children);
    assert_eq!(next_gen.len(), 2 * PAIRS + N_ELITISM);
    assert!(next_gen.windows(2).all(|w| w[0].cost <= w[1].cost));
    assert!(next_gen[0].cost <= min);
    assert!(next_gen.iter().all(|c| is_perm(&c.palets) && priced(c, &ps, &m)));
    assert!(Memetic::ls_candidates(3, &next_gen, &vec![]).is_empty());
    let cands = Memetic::ls_candidates(10, &next_gen, &vec![]);
    assert_eq!(cands, (0..LS_N).collect::<Vec<usize>>());
    let cache = vec![next_gen[4].clone()];
    let cands = Memetic::ls_candidates(20, &next_gen, &cache);
    assert!(!cands.contains(&4));
    mm.end_generation(next_gen);
    assert!(mm.best_cost() <= min);
}

#[test]
fn adopt_takes_cheaper_results_and_caches_what_they_replace() {
    let m = matrix();
    let ps = palets();
    let mut rng = RNG::new();
    let mut mm = Memetic::new(&m, &ps, "adopt", &mut rng);
    mm.begin_generation();
    let children = mm.get_next_gen_st(&mut rng);
    let mut next_gen = mm.gather(children);
    assert!(next_gen.len() >= N_CROMOSOMA);
    let ls = LocalSearchMM::new(&m, &ps);
    let better = ls.run_with_start::<300>(&next_gen[7], &mut rng);
    assert!(better.cost <= next_gen[7].cost);
    assert!(is_perm(&better.palets) && priced(&better, &ps, &m));
    let old7 = next_gen[7].clone();
    let old9 = next_gen[9].clone();
    let same = next_gen[9].clone();
    let improved = better.cost < old7.cost;
    let mut cache: Vec<Cromosoma> = vec![];
    mm.adopt(&mut next_gen, &mut cache, vec![(better.clone(), 7), (same, 9)]);
    assert!(next_gen[9] == old9);
    if improved {
        assert!(next_gen[7] == better);
        assert_eq!(cache.len(), 1);
        assert!(cache[0] == old7);
    } else {
        assert!(next_gen[7] == old7);
        assert!(cache.is_empty());
    }
}

#[test]
fn memetic_local_search_never_worsens() {
    let m = matrix();
    let ps = palets();
    let mut rng = RNG::new();
    let start = Cromosoma::get_random(&mut rng);
    let ls = LocalSearchMM::new(&m, &ps);
    let best = ls.run_with_start::<1000>(&start, &mut rng);
    let mut fresh = Cromosoma::new_with(start.palets.clone());
    assert!(best.cost <= fresh.cost(&ps, &m));
    assert!(is_perm(&best.palets));
}

#[test]
fn chromosome_equality_looks_at_the_first_n_palets_ids() {
    let ids: Vec<u8> = (0..N_PALETS as u8).collect();
    let a = Cromosoma { palets: ids.clone(), cost: 7 };
    assert!(a == Cromosoma { palets: ids.clone(), cost: 7 });
    assert!(a != Cromosoma { palets: ids.clone(), cost: 8 });
    let mut swapped = ids.clone();
    swapped.swap(3, 100);
    assert!(a != Cromosoma { palets: swapped, cost: 7 });
    let mut longer = ids.clone();
    longer.push(5);
    let mut longer_too = ids.clone();
    longer_too.push(9);
    assert!(Cromosoma { palets: longer, cost: 7 } == Cromosoma { palets: longer_too, cost: 7 });
}

#[test]
fn memetic_local_search_starts_from_the_kept_cost() {
    let m = matrix();
    let ps = palets();
    let mut rng = RNG::new();
    let mut start = Cromosoma::get_random(&mut rng);
    start.cost = 1;
    let ls = LocalSearchMM::new(&m, &ps);
    let best = ls.run_with_start::<500>(&start, &mut rng);
    assert!(best == start);
}

#[test]
fn local_search_is_due_every_opt_cd_generations() {
    assert!(Memetic::ls_due(0));
    assert!(!Memetic::ls_due(1));
    assert!(!Memetic::ls_due(OPT_CD - 1));
    assert!(Memetic::ls_due(OPT_CD));
    assert!(Memetic::ls_due(3 * OPT_CD));
}

#[test]
fn generations_on_one_thread_keep_51_and_never_raise_the_best() {
    let m = matrix();
    let ps = palets();
    let mut rng = RNG::new();
    rng.set_new_seed(2024);
    let mut mm = Memetic::new(&m, &ps, "st", &mut rng);
    let ls = LocalSearchMM::new(&m, &ps);
    let mut last = mm.best_cost();
    for gen in 1..=OPT_CD {
        let before = mm.best_cost();
        let min = mm.generation_st(gen, &ls, &mut rng);
        assert_eq!(min, before);
        assert!(min <= last);
        last = min;
        assert!(mm.best_cost() <= min);
    }
    let end = mm.begin_generation();
    assert!(end <= last);
}
