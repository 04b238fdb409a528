use practica_one::algo::genetic::{
    best_index, min_cost, sort_by_cost, Cromosoma, CrossType, GAGreedyP, Genetic, MutType,
};
use practica_one::algo::{cost, Costs, Palets, Trucks, N, N_PALETS, N_TRUCKS, TRUCK_CAP};
use practica_one::rng::RNG;

fn matrix() -> Costs {
    (0..N)
        .map(|i| (0..N).map(|j| if i == j { 0 } else { 3 * i + 5 * j + (i * j) % 11 }).collect())
        .collect()
}

fn palets() -> Palets {
    (0..N_PALETS).map(|k| ((k * 7) % 50 + 1) as u8).collect()
}

fn identity() -> Vec<u8> {
    (0..N_PALETS as u8).collect()
}

fn is_perm(ids: &[u8]) -> bool {
    let mut v = ids.to_vec();
    v.sort();
    v == identity()
}

fn plan_of(ids: &[u8], dests: &Palets) -> Trucks {
    let mut t: Trucks = [[0u8; TRUCK_CAP]; N_TRUCKS];
    for x in 0..N_TRUCKS {
        for j in 0..TRUCK_CAP {
            t[x][j] = dests[ids[x * TRUCK_CAP + j] as usize];
        }
    }
    t
}

fn chrom(ids: Vec<u8>, cost: usize) -> Cromosoma {
    let mut c = Cromosoma::new_with(ids);
    c.cost = cost;
    c
}

#[test]
fn diff_counts_positions_of_different_parity() {
    let ps = palets();
    let a = chrom(vec![1, 2, 3], 0);
    let b = chrom(vec![2, 2, 4], 0);
    assert_eq!(a.diff(&b, &ps), 2);
    assert_eq!(b.diff(&a, &ps), 2);
    assert_eq!(a.diff(&a, &ps), 0);
    let c = chrom(vec![1, 2], 0);
    assert_eq!(a.diff(&c, &ps), 0);
}

#[test]
fn chromosome_cost_is_the_cost_of_its_plan() {
    let m = matrix();
    let ps = palets();
    let mut c = Cromosoma::new_with(identity());
    let got = c.cost(&ps, &m);
    assert_eq!(got, cost(&m, &plan_of(&identity(), &ps)));
    assert_eq!(c.cost, got);
    let mut rng = RNG::new();
    let mut r = Cromosoma::get_random(&mut rng);
    let ids = r.palets.clone();
    assert_eq!(r.cost(&ps, &m), cost(&m, &plan_of(&ids, &ps)));
}

#[test]
fn chromosome_cost_is_kept_once_known() {
    let m = matrix();
    let ps = palets();
    let mut c = chrom(identity(), 12345);
    assert_eq!(c.cost(&ps, &m), 12345);
}

#[test]
fn get_random_is_a_permutation() {
    let mut rng = RNG::new();
    rng.set_new_seed(5);
    for _ in 0..5 {
        let c = Cromosoma::get_random(&mut rng);
        assert!(is_perm(&c.palets));
        assert_eq!(c.cost, 0);
    }
}

#[test]
fn default_chromosome_is_all_zero() {
    let c = Cromosoma::default();
    assert_eq!(c.palets, vec![0u8; N_PALETS]);
    assert_eq!(c.cost, 0);
}

#[test]
fn chromosome_equality_compares_cost_and_ids() {
    let a = chrom(identity(), 5);
    let b = chrom(identity(), 5);
    let c = chrom(identity(), 6);
    let mut ids = identity();
    ids.swap(0, 1);
    let d = chrom(ids, 5);
    assert!(a == b);
    assert!(a != c);
    assert!(a != d);
}

#[test]
fn simple_mutation_exchanges_two_ids() {
    let mut rng = RNG::new();
    for _ in 0..20 {
        let mut c = chrom(identity(), 9);
        MutType::Simple.apply(&mut c, &mut rng);
        assert!(is_perm(&c.palets));
        assert_eq!(c.cost, 9);
        let moved: Vec<usize> = (0..N_PALETS).filter(|&i| c.palets[i] != i as u8).collect();
        assert_eq!(moved.len(), 2);
        assert_eq!(c.palets[moved[0]], moved[1] as u8);
        assert_eq!(c.palets[moved[1]], moved[0] as u8);
    }
}

#[test]
fn reversed_mutation_reverses_a_run() {
    let mut rng = RNG::new();
    for _ in 0..20 {
        let mut c = chrom(identity(), 0);
        MutType::Reversed.apply(&mut c, &mut rng);
        assert!(is_perm(&c.palets));
        let moved: Vec<usize> = (0..N_PALETS).filter(|&i| c.palets[i] != i as u8).collect();
        if let (Some(&lo), Some(&hi)) = (moved.first(), moved.last()) {
            for i in lo..=hi {
                assert_eq!(c.palets[i] as usize, lo + hi - i);
            }
        }
    }
}

#[test]
fn crossing_a_parent_with_itself_gives_it_back() {
    let mut rng = RNG::new();
    let p = chrom(identity(), 0);
    let (a, b) = CrossType::OX.cross(&p, &p, &mut rng);
    assert_eq!(a.palets, identity());
    assert_eq!(b.palets, identity());
    let (c, d) = CrossType::AEX.cross(&p, &p, &mut rng);
    assert_eq!(c.palets, identity());
    assert_eq!(d.palets, identity());
}

#[test]
fn crossover_children_are_permutations() {
    let mut rng = RNG::new();
    rng.set_new_seed(2);
    for _ in 0..10 {
        let p1 = Cromosoma::get_random(&mut rng);
        let p2 = Cromosoma::get_random(&mut rng);
        let (a, b) = CrossType::OX.cross(&p1, &p2, &mut rng);
        assert!(is_perm(&a.palets) && is_perm(&b.palets));
        let c = CrossType::cross_aex(&p1, &p2);
        assert!(is_perm(&c.palets));
        assert_eq!(c.palets[0], p1.palets[0]);
        assert_eq!(c.palets[1], p1.palets[1]);
        assert_eq!(c.cost, 0);
    }
}

#[test]
fn aex_follows_the_second_parent_after_the_first_two_ids() {
    let p1 = chrom(identity(), 0);
    let mut rev = identity();
    rev.reverse();
    let p2 = chrom(rev, 0);
    let c = CrossType::cross_aex(&p1, &p2);
    // 0, 1 from the first parent; in the second, 1 is followed by 0 (taken),
    // so the first free id going round it from the start is taken: 167.
    assert_eq!(&c.palets[..3], &[0, 1, 167]);
    assert!(is_perm(&c.palets));
}

#[test]
fn sort_by_cost_is_stable() {
    let pop = vec![
        chrom(vec![0], 5),
        chrom(vec![1], 3),
        chrom(vec![2], 5),
        chrom(vec![3], 1),
    ];
    let sorted = sort_by_cost(&pop);
    let ids: Vec<u8> = sorted.iter().map(|c| c.palets[0]).collect();
    assert_eq!(ids, vec![3, 1, 0, 2]);
}

#[test]
fn min_cost_and_best_index() {
    let pop = vec![chrom(vec![0], 4), chrom(vec![1], 2), chrom(vec![2], 2), chrom(vec![3], 7)];
    assert_eq!(min_cost(&pop), 2);
    assert_eq!(best_index(&pop), 1);
}

#[test]
fn ga_greedy_builds_a_priced_permutation() {
    let m = matrix();
    let ps = palets();
    let mut rng = RNG::new();
    let c = GAGreedyP::new(&m, &ps).run(&mut rng);
    assert!(is_perm(&c.palets));
    let mut fresh = Cromosoma::new_with(c.palets.clone());
    assert_eq!(fresh.cost(&ps, &m), c.cost);
}

#[test]
fn genetic_best_plan_costs_what_its_chromosome_says() {
    let m = matrix();
    let ps = palets();
    let mut rng = RNG::new();
    rng.set_new_seed(123456);
    let mut g = Genetic::new(&m, &ps, &mut rng);
    let min = g.min_cost();
    let (best, plan) = g.best_plan();
    assert_eq!(best, min);
    assert_eq!(cost(&m, &plan), best);
}

#[test]
fn genetic_generations_keep_every_palet() {
    let m = matrix();
    let ps = palets();
    let mut rng = RNG::new();
    let mut g = Genetic::new(&m, &ps, &mut rng);
    let before = g.min_cost();
    for _ in 0..20 {
        g.next_generation(&mut rng);
    }
    let (_, plan) = g.best_plan();
    let mut load: Vec<u8> = plan.iter().flat_map(|r| r.iter().cloned()).collect();
    load.sort();
    let mut expected = ps.clone();
    expected.sort();
    assert_eq!(load, expected);
    // The elites are carried over, so the best cost never rises.
    assert!(g.min_cost() <= before);
}

/// Rank of `x` among `keys` sorted stably: how many come before it.
fn stable_rank(keys: &[usize], x: usize) -> usize {
    (0..keys.len())
        .filter(|&y| keys[y] < keys[x] || (keys[y] == keys[x] && y < x))
        .count()
}

#[test]
fn ga_greedy_takes_each_id_among_the_nearest_tenth() {
    let m = matrix();
    let ps = palets();
    let mut rng = RNG::new();
    rng.set_new_seed(77);
    let c = GAGreedyP::new(&m, &ps).run(&mut rng);
    let mut left: Vec<usize> = (0..N_PALETS).collect();
    for &id in c.palets.iter() {
        let keys: Vec<usize> = left.iter().map(|&p| m[0][ps[p] as usize - 1]).collect();
        let x = left.iter().position(|&p| p == id as usize).unwrap();
        assert!(stable_rank(&keys, x) < (left.len() + 9) / 10);
        left.remove(x);
    }
}

#[test]
fn each_generation_keeps_the_lowest_cost() {
    let m = matrix();
    let ps = palets();
    let mut rng = RNG::new();
    rng.set_new_seed(123456);
    let mut g = Genetic::new(&m, &ps, &mut rng);
    for _ in 0..30 {
        let before = g.min_cost();
        g.next_generation(&mut rng);
        assert!(g.min_cost() <= before);
    }
}
