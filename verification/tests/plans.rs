use practica_one::algo::{
    check_instance, cost, count_palets, gen_neighbour, gen_neighbour_2, gen_sol, gen_sol2,
    stable_order, two_op_between_trucks, two_op_in_truck, Costs, Palets, Trucks, N, N_PALETS,
    N_TRUCKS, TRUCK_CAP,
};
use practica_one::rng::RNG;

/// A cost matrix where going from city `i` to city `j` costs `10 * i + j`.
fn matrix() -> Costs {
    (0..N).map(|i| (0..N).map(|j| 10 * i + j).collect()).collect()
}

/// `N_PALETS` palets bound for cities 1 to 49, in turn.
fn palets() -> Palets {
    (0..N_PALETS).map(|k| (k % 49 + 1) as u8).collect()
}

fn sorted_load(t: &Trucks) -> Vec<u8> {
    let mut v: Vec<u8> = t.iter().flat_map(|r| r.iter().cloned()).collect();
    v.sort();
    v
}

fn differing_slots(a: &Trucks, b: &Trucks) -> Vec<(usize, usize)> {
    let mut d = vec![];
    for i in 0..N_TRUCKS {
        for j in 0..TRUCK_CAP {
            if a[i][j] != b[i][j] {
                d.push((i, j));
            }
        }
    }
    d
}

#[test]
fn cost_of_plan_with_depot_palets_only_is_zero() {
    let m = matrix();
    let plan: Trucks = [[1u8; TRUCK_CAP]; N_TRUCKS];
    assert_eq!(cost(&m, &plan), 0);
}

#[test]
fn cost_counts_first_visits_and_return() {
    let m = matrix();
    let mut plan: Trucks = [[1u8; TRUCK_CAP]; N_TRUCKS];
    plan[0][0] = 2;
    plan[0][1] = 2;
    plan[0][2] = 3;
    plan[0][5] = 2;
    // depot -> city 1 -> city 2 -> depot: 1 + 12 + 20
    assert_eq!(cost(&m, &plan), 33);
    plan[3][13] = 4;
    // depot -> city 3 -> depot: 3 + 30
    assert_eq!(cost(&m, &plan), 66);
}

#[test]
fn gen_neighbour_2_swaps_between_and_within_trucks() {
    let mut plan: Trucks = [[1u8; TRUCK_CAP]; N_TRUCKS];
    plan[2][3] = 7;
    plan[5][9] = 8;
    let nb = gen_neighbour_2(&plan, true, 2, 5, 3, 9);
    assert_eq!(nb[2][3], 8);
    assert_eq!(nb[5][9], 7);
    assert_eq!(differing_slots(&plan, &nb).len(), 2);
    let nb2 = gen_neighbour_2(&plan, false, 2, 5, 3, 0);
    assert_eq!(nb2[2][3], 1);
    assert_eq!(nb2[2][0], 7);
    assert_eq!(nb2[5][9], 8);
}

#[test]
fn gen_neighbour_2_twice_gives_the_plan_back() {
    let mut plan: Trucks = [[1u8; TRUCK_CAP]; N_TRUCKS];
    plan[0][4] = 9;
    plan[11][13] = 30;
    plan[3][3] = 12;
    let once = gen_neighbour_2(&plan, true, 0, 11, 4, 13);
    assert_ne!(once, plan);
    assert_eq!(gen_neighbour_2(&once, true, 0, 11, 4, 13), plan);
    let within = gen_neighbour_2(&plan, false, 3, 0, 3, 5);
    assert_ne!(within, plan);
    assert_eq!(gen_neighbour_2(&within, false, 3, 0, 3, 5), plan);
}

#[test]
fn two_op_moves_keep_the_load() {
    let mut rng = RNG::new();
    rng.set_new_seed(7);
    let base = gen_sol(&palets(), &mut rng);
    for _ in 0..200 {
        let mut a = base;
        two_op_in_truck(&mut a, &mut rng);
        let d = differing_slots(&base, &a);
        assert!(d.len() <= 2);
        if d.len() == 2 {
            assert_eq!(d[0].0, d[1].0);
        }
        assert_eq!(sorted_load(&a), sorted_load(&base));
        let mut b = base;
        two_op_between_trucks(&mut b, &mut rng);
        let d = differing_slots(&base, &b);
        assert!(d.len() <= 2);
        if d.len() == 2 {
            assert_ne!(d[0].0, d[1].0);
            assert_ne!(d[0].1, d[1].1);
        }
        assert_eq!(sorted_load(&b), sorted_load(&base));
    }
}

#[test]
fn gen_neighbour_keeps_the_load() {
    let mut rng = RNG::new();
    let base = gen_sol(&palets(), &mut rng);
    for k in 0..100 {
        let nb = gen_neighbour(&base, k % 2 == 0, &mut rng);
        assert_eq!(sorted_load(&nb), sorted_load(&base));
    }
}

#[test]
fn gen_sol_places_every_palet() {
    let mut rng = RNG::new();
    rng.set_new_seed(3);
    let ps = palets();
    let plan = gen_sol(&ps, &mut rng);
    let mut expected = ps.clone();
    expected.sort();
    assert_eq!(sorted_load(&plan), expected);
}

#[test]
fn gen_sol_leaves_empty_slots_for_missing_palets() {
    let mut rng = RNG::new();
    let ps: Palets = vec![5, 6, 7];
    let plan = gen_sol(&ps, &mut rng);
    let load = sorted_load(&plan);
    assert_eq!(load.iter().filter(|&&x| x == 0).count(), N_TRUCKS * TRUCK_CAP - 3);
    assert_eq!(&load[N_TRUCKS * TRUCK_CAP - 3..], &[5, 6, 7]);
}

#[test]
fn gen_sol2_places_every_palet() {
    let mut rng = RNG::new();
    rng.set_new_seed(11);
    let ps = palets();
    let plan = gen_sol2(&ps, &mut rng);
    let mut expected = ps.clone();
    expected.sort();
    assert_eq!(sorted_load(&plan), expected);
}

#[test]
fn stable_order_sorts_indices_by_key_keeping_ties_in_place() {
    let keys = vec![3usize, 1, 3, 0, 1];
    assert_eq!(stable_order(&keys), vec![3, 1, 4, 0, 2]);
    assert_eq!(stable_order(&vec![]), Vec::<usize>::new());
}

#[test]
fn count_palets_counts_each_city() {
    let ps: Palets = vec![1, 3, 3, 50];
    let counts = count_palets(&ps);
    assert_eq!(counts[0], 1);
    assert_eq!(counts[1], 0);
    assert_eq!(counts[2], 2);
    assert_eq!(counts[49], 1);
    assert_eq!(counts.iter().sum::<usize>(), 4);
}

#[test]
fn check_instance_accepts_a_fitting_instance() {
    assert!(check_instance(&matrix(), &palets()));
}

#[test]
fn check_instance_refuses_bad_instances() {
    let m = matrix();
    let mut ps = palets();
    ps.pop();
    assert!(!check_instance(&m, &ps));
    let mut ps = palets();
    ps[10] = 0;
    assert!(!check_instance(&m, &ps));
    let mut ps = palets();
    ps[10] = 51;
    assert!(!check_instance(&m, &ps));
    let mut small = matrix();
    small.pop();
    assert!(!check_instance(&small, &palets()));
    let mut dear = matrix();
    dear[4][7] = usize::MAX;
    assert!(!check_instance(&dear, &palets()));
}

fn is_subsequence(row: &[u8], ps: &[u8]) -> bool {
    let mut it = ps.iter();
    row.iter().all(|x| it.any(|y| y == x))
}

#[test]
fn gen_sol_deals_palets_in_order() {
    let mut rng = RNG::new();
    rng.set_new_seed(4);
    let ps: Palets = (0..100).map(|k| (k % 50 + 1) as u8).collect();
    let plan = gen_sol(&ps, &mut rng);
    for row in plan.iter() {
        let filled: Vec<u8> = row.iter().cloned().take_while(|&x| x != 0).collect();
        assert!(row[filled.len()..].iter().all(|&x| x == 0));
        assert!(is_subsequence(&filled, &ps));
    }
}
