use sde_sim::rng::{PseudoRng, SobolRng, XORScrambler, MANTISSA_MASK};

#[test]
fn pseudo_repeats_within_a_step() {
    let mut rng = PseudoRng::from_seed(3, 42);
    let a = rng.sample(0, 0, 0);
    let b = rng.sample(0, 0, 1);
    let c = rng.sample(0, 0, 2);
    // a repeat call in the same step returns the cached draws
    assert_eq!(rng.sample(0, 0, 0), a);
    assert_eq!(rng.sample(0, 0, 1), b);
    assert_eq!(rng.sample(0, 0, 2), c);
}

#[test]
fn pseudo_out_of_range_source_yields_zero() {
    let mut rng = PseudoRng::from_seed(2, 1);
    let _ = rng.sample(0, 0, 0);
    assert_eq!(rng.sample(0, 0, 5), 0);
    let mut empty = PseudoRng::from_seed(0, 1);
    assert_eq!(empty.sample(0, 0, 0), 0);
}

#[test]
fn pseudo_streams_with_one_seed_agree() {
    let mut a = PseudoRng::from_seed(2, 99);
    let mut b = PseudoRng::from_seed(2, 99);
    for t in 0..10 {
        for i in 0..2 {
            assert_eq!(a.sample(t, 0, i), b.sample(t, 0, i));
        }
    }
}

#[test]
fn pseudo_step_change_refreshes_the_draws() {
    let mut rng = PseudoRng::from_seed(1, 7);
    let a = rng.sample(0, 0, 0);
    let b = rng.sample(1, 0, 0);
    let c = rng.sample(1, 1, 0);
    // a ChaCha stream repeating across three refills would be broken
    assert!(a != b || b != c);
}

#[test]
fn scrambler_keeps_the_high_bits() {
    let mut sc = XORScrambler::from_seed(5);
    let values: Vec<u64> = vec![0x3FF0_0000_0000_0000, 0, u64::MAX, 0x0008_1234_5678_9ABC];
    let out = sc.scramble(values.clone());
    assert_eq!(out.len(), values.len());
    for (o, v) in out.iter().zip(values.iter()) {
        assert_eq!(o >> 52, v >> 52);
        assert_eq!(o & !MANTISSA_MASK, v & !MANTISSA_MASK);
    }
    // with this seed the masks are not all zero
    assert!(out.iter().zip(values.iter()).any(|(o, v)| o != v));
}

#[test]
fn scrambler_with_one_seed_repeats() {
    let mut a = XORScrambler::from_seed(11);
    let mut b = XORScrambler::from_seed(11);
    let vals: Vec<u64> = (0..8u64).map(|i| i * 0x1111_1111).collect();
    assert_eq!(a.scramble(vals.clone()), b.scramble(vals));
}

#[test]
fn scrambler_masks_are_the_words_of_the_pinned_stream() {
    // A scrambler over seed s XORs the stream's words (cut to 52 bits)
    // into its inputs, and a pseudo backend over the same seed draws the
    // very same words: scrambling zeros must reproduce the masked draws.
    let mut sc = XORScrambler::from_seed(77);
    let out = sc.scramble(vec![0u64; 4]);
    let mut pr = PseudoRng::from_seed(4, 77);
    let _ = pr.sample(0, 0, 0);
    for (i, o) in out.iter().enumerate() {
        assert_eq!(*o, pr.sample(0, 0, i) & MANTISSA_MASK);
    }
}

#[test]
fn sign_source_is_reproducible_and_two_sided() {
    let mut a = XORScrambler::from_seed(3);
    let mut b = XORScrambler::from_seed(3);
    let draws_a: Vec<bool> = (0..64).map(|_| a.draw_sign()).collect();
    let draws_b: Vec<bool> = (0..64).map(|_| b.draw_sign()).collect();
    assert_eq!(draws_a, draws_b);
    assert!(draws_a.iter().any(|x| *x));
    assert!(draws_a.iter().any(|x| !*x));
}

#[test]
fn sobol_caches_one_scenario_path() {
    // 4 time points, 2 sources: each scenario consumes one 6-component point
    let mut rng = SobolRng::from_seed(2, 4, 17);
    let mut path = Vec::new();
    for t in 0..3 {
        for i in 0..2 {
            path.push(rng.sample(t, 0, i));
        }
    }
    // repeats within the scenario return the same components
    for t in 0..3 {
        for i in 0..2 {
            assert_eq!(rng.sample(t, 0, i), path[t * 2 + i]);
        }
    }
    // an index beyond the path defensively yields zero
    assert_eq!(rng.sample(9, 0, 1), 0);
}

#[test]
fn sobol_with_one_seed_is_bit_identical() {
    let mut a = SobolRng::from_seed(1, 5, 123);
    let mut b = SobolRng::from_seed(1, 5, 123);
    for s in 0..6 {
        for t in 0..4 {
            assert_eq!(a.sample(t, s, 0), b.sample(t, s, 0));
        }
    }
}

#[test]
fn sobol_scenarios_draw_distinct_points() {
    let mut rng = SobolRng::from_seed(1, 3, 9);
    let s0: Vec<u64> = (0..2).map(|t| rng.sample(t, 0, 0)).collect();
    let s1: Vec<u64> = (0..2).map(|t| rng.sample(t, 1, 0)).collect();
    assert_ne!(s0, s1);
}

#[test]
fn sobol_high_bits_survive_scrambling() {
    // Scrambling flips only the 52 low bits, so every component keeps the
    // 12 high bits of its raw Sobol value; with a fresh unscrambled source
    // of the same shape the high bits must agree point for point.
    let mut a = SobolRng::from_seed(1, 3, 1);
    let mut b = SobolRng::from_seed(1, 3, 2);
    for s in 0..4 {
        for t in 0..2 {
            assert_eq!(a.sample(t, s, 0) >> 52, b.sample(t, s, 0) >> 52);
        }
    }
}
