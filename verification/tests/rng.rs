use practica_one::rng::{next_usize, set_new_seed, MASK, PRIME, RNG, SEED, UNIT_STEPS};

/// One step of the home-made generator, written out with wrapping arithmetic.
fn step(x: isize) -> isize {
    x.wrapping_add(1)
        .wrapping_mul(PRIME)
        .wrapping_add(MASK ^ x.wrapping_shl(3).wrapping_mul(PRIME))
        .wrapping_sub(MASK ^ (x >> 2))
}

#[test]
fn next_usize_from_zero_is_prime() {
    let mut rng = RNG::new();
    set_new_seed(&mut rng, 0);
    assert_eq!(next_usize(&mut rng), 65539);
}

#[test]
fn next_usize_follows_the_step_from_the_default_seed() {
    let mut rng = RNG::new();
    let mut x = SEED as isize;
    for _ in 0..50 {
        x = step(x);
        assert_eq!(next_usize(&mut rng), x as usize);
    }
}

#[test]
fn next_usize_restarts_after_a_new_seed() {
    let mut rng = RNG::new();
    set_new_seed(&mut rng, 42);
    let a: Vec<usize> = (0..10).map(|_| next_usize(&mut rng)).collect();
    set_new_seed(&mut rng, 42);
    let b: Vec<usize> = (0..10).map(|_| next_usize(&mut rng)).collect();
    assert_eq!(a, b);
}

#[test]
fn small_rng_is_reproducible_from_a_seed() {
    let mut a = RNG::new();
    let mut b = RNG::new();
    a.set_new_seed(123456);
    b.set_new_seed(123456);
    for _ in 0..20 {
        assert_eq!(a.next(), b.next());
    }
}

#[test]
fn small_rng_draws_differ_from_one_call_to_the_next() {
    let mut a = RNG::new();
    a.set_new_seed(1);
    let draws: Vec<usize> = (0..8).map(|_| a.next()).collect();
    let mut unique = draws.clone();
    unique.sort();
    unique.dedup();
    assert_eq!(unique.len(), draws.len());
}

#[test]
fn unseeded_small_rng_uses_the_default_seed() {
    let mut a = RNG::new();
    let mut b = RNG::new();
    b.set_new_seed(33);
    // An unseeded generator is seeded with 33 and gives its first draw; a
    // seeded one gives the first of two draws.
    assert_eq!(a.next(), b.next());
}

#[test]
fn unit_bits_are_the_top_53_bits_of_a_draw() {
    let mut a = RNG::new();
    let mut b = RNG::new();
    a.set_new_seed(7);
    b.set_new_seed(7);
    for _ in 0..50 {
        let k = a.next_unit_bits();
        assert!(k < UNIT_STEPS);
        assert_eq!(k, (b.next() as u64) >> 11);
    }
}
