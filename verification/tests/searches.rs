use practica_one::algo::{
    cost, gen_sol, Costs, Greedy, GreedyP, GreedyT, GreedyExp, Ils, LocalSearchBF, Palets, RandomSearch,
    SimulatedAnnealing, TabuSearch, Trucks, N, N_EVAL, N_PALETS, N_TRUCKS, TRUCK_CAP,
};
use practica_one::rng::RNG;

fn matrix() -> Costs {
    (0..N)
        .map(|i| (0..N).map(|j| if i == j { 0 } else { (7 * i + 3 * j) % 40 + 1 }).collect())
        .collect()
}

fn palets_n(n: usize) -> Palets {
    (0..n).map(|k| ((k * 13) % 50 + 1) as u8).collect()
}

fn palets() -> Palets {
    palets_n(N_PALETS)
}

fn sorted_load(t: &Trucks) -> Vec<u8> {
    let mut v: Vec<u8> = t.iter().flat_map(|r| r.iter().cloned()).collect();
    v.sort();
    v
}

fn sorted(ps: &Palets) -> Vec<u8> {
    let mut v = ps.clone();
    v.sort();
    v
}

/// The greedy rule written out plainly: each palet goes to the first truck
/// with room whose extra leg is the lowest.
fn greedy_reference(m: &Costs, ps: &Palets) -> Trucks {
    let mut sol: Trucks = [[0u8; TRUCK_CAP]; N_TRUCKS];
    let mut lens = [0usize; N_TRUCKS];
    for &pal in ps {
        let mut best_truck = 0;
        let mut best_cost = usize::MAX;
        for i in 0..N_TRUCKS {
            if lens[i] >= TRUCK_CAP {
                continue;
            }
            let c = if lens[i] == 0 {
                m[0][pal as usize - 1]
            } else {
                m[sol[i][lens[i] - 1] as usize - 1][pal as usize - 1]
            };
            if c < best_cost {
                best_cost = c;
                best_truck = i;
            }
        }
        sol[best_truck][lens[best_truck]] = pal;
        lens[best_truck] += 1;
    }
    sol
}

/// The chain rule written out plainly: each truck starts from the last palet
/// left, leaves it out, and takes the nearest palet again and again.
fn greedy_exp_reference(m: &Costs, ps: &Palets) -> Trucks {
    let mut sol: Trucks = [[0u8; TRUCK_CAP]; N_TRUCKS];
    let mut pals = ps.clone();
    for truck in sol.iter_mut() {
        let mut current = pals.pop().unwrap();
        for slot in 0..TRUCK_CAP {
            let mut best = 0;
            for i in 1..pals.len() {
                let d = m[current as usize - 1][pals[i] as usize - 1];
                if d < m[current as usize - 1][pals[best] as usize - 1] {
                    best = i;
                }
            }
            let city = pals.remove(best);
            truck[slot] = city;
            current = city;
        }
    }
    sol
}

#[test]
fn greedy_follows_the_greedy_rule() {
    let m = matrix();
    let ps = palets();
    let sol = Greedy::new(&m, ps.clone()).run();
    assert_eq!(sol, greedy_reference(&m, &ps));
    assert_eq!(sorted_load(&sol), sorted(&ps));
}

#[test]
fn greedy_exp_chains_nearest_palets() {
    let m = matrix();
    let ps = palets_n(N_TRUCKS * (TRUCK_CAP + 1) + 5);
    let sol = GreedyExp::new(&m, ps.clone()).run();
    assert_eq!(sol, greedy_exp_reference(&m, &ps));
}

#[test]
fn local_search_never_worsens_and_keeps_the_load() {
    let m = matrix();
    let ps = palets();
    let mut rng = RNG::new();
    rng.set_new_seed(1);
    let start = gen_sol(&ps, &mut rng);
    let ls = LocalSearchBF::new(&m, &ps);
    let sol = ls.run_with_start(start, &mut rng);
    assert!(cost(&m, &sol) <= cost(&m, &start));
    assert_eq!(sorted_load(&sol), sorted(&ps));
}

#[test]
fn local_search_run_reports_a_step_within_the_budget() {
    let m = matrix();
    let ps = palets();
    let mut rng = RNG::new();
    let (c, it) = LocalSearchBF::new(&m, &ps).run(&mut rng);
    assert!(it < N_EVAL);
    assert!(c > 0);
}

#[test]
fn tabu_search_never_worsens_and_keeps_the_load() {
    let m = matrix();
    let ps = palets();
    let mut rng = RNG::new();
    rng.set_new_seed(2);
    let start = gen_sol(&ps, &mut rng);
    let mut ts = TabuSearch::new(&m, &ps);
    let sol = ts.run_with_start::<false>(start, &mut rng);
    assert!(cost(&m, &sol) <= cost(&m, &start));
    assert_eq!(sorted_load(&sol), sorted(&ps));
}

#[test]
fn tabu_search_with_restarts_keeps_every_palet() {
    let m = matrix();
    let ps = palets();
    let mut rng = RNG::new();
    rng.set_new_seed(5);
    let mut ts = TabuSearch::new(&m, &ps);
    let sol = ts.run(&mut rng);
    assert_eq!(sorted_load(&sol), sorted(&ps));
}

#[test]
fn tabu_long_memory_plan_holds_every_palet() {
    let m = matrix();
    let ps = palets();
    let ts = TabuSearch::new(&m, &ps);
    let memory = [[0u16; N]; N_TRUCKS];
    let sol = ts.long_memory_sol(&memory);
    assert_eq!(sorted_load(&sol), sorted(&ps));
}

#[test]
fn greedy_t_and_greedy_p_place_every_palet() {
    let m = matrix();
    let ps = palets();
    let mut rng = RNG::new();
    let t = GreedyT::new(&m, &ps).run(&mut rng);
    assert_eq!(sorted_load(&t), sorted(&ps));
    let p = GreedyP::new(&m, &ps).run(&mut rng);
    assert_eq!(sorted_load(&p), sorted(&ps));
}

#[test]
fn ils_keeps_the_cheaper_plan() {
    let m = matrix();
    let ps = palets();
    let mut rng = RNG::new();
    let ils = Ils::new(&m, &ps);
    let mut st = ils.start(&mut rng);
    assert_eq!(st.best_cost, cost(&m, &st.best_sol));
    assert_eq!(st.mutation_sol, st.best_sol);
    let greedy = Greedy::new(&m, ps.clone()).run();
    let greedy_cost = cost(&m, &greedy);
    let before = st.best_cost;
    ils.step(&mut st, greedy, &mut rng);
    if greedy_cost < before {
        assert_eq!(st.best_sol, greedy);
        assert_eq!(st.best_cost, greedy_cost);
    } else {
        assert_eq!(st.best_cost, before);
    }
    assert_eq!(sorted_load(&st.mutation_sol), sorted(&ps));
    let diff = (0..N_TRUCKS)
        .flat_map(|i| (0..TRUCK_CAP).map(move |j| (i, j)))
        .filter(|&(i, j)| st.mutation_sol[i][j] != st.best_sol[i][j])
        .count();
    assert!(diff <= 4);
}

#[test]
fn annealing_settles_candidates() {
    let m = matrix();
    let ps = palets();
    let mut rng = RNG::new();
    let sa = SimulatedAnnealing::new(&m, ps.clone());
    let mut st = sa.start(&mut rng);
    assert!(st.running());
    assert!(!st.in_step());
    st.begin_step();
    let mut steps = 0;
    while st.in_step() {
        let (_, before) = st.best();
        let c = st.propose(&sa, &mut rng);
        let improves = st.improves(c);
        assert_eq!(improves, c < before);
        st.settle(false);
        let (plan, now) = st.best();
        assert_eq!(now, cost(&m, &plan));
        if improves {
            assert_eq!(now, c);
        } else {
            assert_eq!(now, before);
        }
        assert_eq!(sorted_load(&plan), sorted(&ps));
        steps += 1;
    }
    assert_eq!(steps, 100);
}

#[test]
fn annealing_takes_a_worse_plan_when_told() {
    let m = matrix();
    let ps = palets();
    let mut rng = RNG::new();
    let sa = SimulatedAnnealing::new(&m, ps.clone());
    let start = Greedy::new(&m, ps.clone()).run();
    let mut st = sa.begin(start);
    st.begin_step();
    let c = st.propose(&sa, &mut rng);
    st.settle(true);
    assert_eq!(st.best().1, c);
}

#[test]
fn random_search_reports_a_draw_within_the_budget() {
    let m = matrix();
    let ps = palets();
    let mut rng = RNG::new();
    let mut rs = RandomSearch::new(&m, ps.clone());
    let (c, it) = rs.run(&mut rng);
    assert!(it < N_EVAL);
    assert!(c > 0);
}

#[test]
fn greedy_p_takes_each_palet_among_the_nearest_tenth() {
    let m = matrix();
    let ps = palets();
    let mut rng = RNG::new();
    rng.set_new_seed(9);
    let sol = GreedyP::new(&m, &ps).run(&mut rng);
    let mut counts = [0usize; N];
    for &p in &ps {
        counts[p as usize - 1] += 1;
    }
    for truck in sol.iter() {
        for l in 0..TRUCK_CAP {
            let from = if l == 0 { 0 } else { truck[l - 1] as usize - 1 };
            let cands: Vec<u8> = ps.iter().cloned().filter(|&p| counts[p as usize - 1] > 0).collect();
            let keys: Vec<usize> = cands.iter().map(|&p| m[from][p as usize - 1]).collect();
            let v = truck[l];
            let x = cands.iter().position(|&p| p == v).unwrap();
            let rank = (0..keys.len())
                .filter(|&y| keys[y] < keys[x] || (keys[y] == keys[x] && y < x))
                .count();
            let left: usize = counts.iter().sum();
            assert!(rank < (left + 9) / 10);
            counts[v as usize - 1] -= 1;
        }
    }
}

/// The long-term-memory rule written out plainly.
fn long_memory_reference(ps: &Palets, memory: &[[u16; N]; N_TRUCKS]) -> Trucks {
    let mut pals = [0usize; N];
    for &p in ps {
        pals[p as usize - 1] += 1;
    }
    let mut sol: Trucks = [[0u8; TRUCK_CAP]; N_TRUCKS];
    for (i, t) in memory.iter().enumerate() {
        let mut sorted: Vec<(usize, u16)> = t.iter().cloned().enumerate().collect();
        sorted.sort_by(|a, b| a.1.cmp(&b.1));
        let mut last = 0;
        while last < TRUCK_CAP {
            for &(pos, _) in sorted.iter() {
                if last >= TRUCK_CAP {
                    break;
                }
                if pals[pos] > 0 {
                    sol[i][last] = pos as u8 + 1;
                    last += 1;
                    pals[pos] -= 1;
                }
            }
        }
    }
    sol
}

#[test]
fn tabu_long_memory_plan_follows_the_memory() {
    let m = matrix();
    let ps = palets();
    let ts = TabuSearch::new(&m, &ps);
    let mut memory = [[0u16; N]; N_TRUCKS];
    for i in 0..N_TRUCKS {
        for c in 0..N {
            memory[i][c] = ((i * 7 + c * 3) % 5) as u16;
        }
    }
    let sol = ts.long_memory_sol(&memory);
    assert_eq!(sol, long_memory_reference(&ps, &memory));
    assert_eq!(sorted_load(&sol), sorted(&ps));
}

#[test]
fn annealing_on_depot_palets_always_costs_84() {
    let m: Costs = vec![vec![7usize; N]; N];
    let ps: Palets = vec![1u8; N_PALETS];
    let mut rng = RNG::new();
    let sa = SimulatedAnnealing::new(&m, ps.clone());
    let mut st = sa.start(&mut rng);
    assert_eq!(st.best().1, 84);
    st.begin_step();
    for accept in [false, true, false, true] {
        let c = st.propose(&sa, &mut rng);
        assert_eq!(c, 84);
        st.settle(accept);
        assert_eq!(st.best().1, 84);
    }
}
