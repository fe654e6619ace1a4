use rand_xoshiro::rand_core::{RngCore, SeedableRng};
use rand_xoshiro::Xoshiro256PlusPlus;
use world_smith::rng::WorldRng;

#[test]
fn same_seed_produces_same_sequence() {
    let mut rng1 = WorldRng::new(42);
    let mut rng2 = WorldRng::new(42);

    let seq1: Vec<u64> = (0..10).map(|_| rng1.next_u64()).collect();
    let seq2: Vec<u64> = (0..10).map(|_| rng2.next_u64()).collect();

    assert_eq!(seq1, seq2);
}

#[test]
fn set_seed_starts_the_sequence_again() {
    let mut rng = WorldRng::new(7);
    let first: Vec<u64> = (0..5).map(|_| rng.next_u64()).collect();
    rng.set_seed(7);
    assert_eq!(rng.seed(), 7);
    let again: Vec<u64> = (0..5).map(|_| rng.next_u64()).collect();
    assert_eq!(first, again);
    assert_ne!(first[0], first[1]);
}

#[test]
fn different_seeds_differ() {
    let mut a = WorldRng::new(1);
    let mut b = WorldRng::new(2);
    assert_eq!(a.seed(), 1);
    assert_ne!(a.next_u64(), b.next_u64());
}

#[test]
fn values_are_those_of_rand_xoshiro() {
    for seed in [0u64, 1, 42, 0x9e37_79b9_7f4a_7c15, u64::MAX] {
        let mut ours = WorldRng::new(seed);
        let mut theirs = Xoshiro256PlusPlus::seed_from_u64(seed);
        for _ in 0..200 {
            assert_eq!(ours.next_u64(), theirs.next_u64());
        }
    }
}

#[test]
fn seed_42_gives_fixed_values() {
    let mut rng = WorldRng::new(42);
    let first = rng.next_u64();
    let mut again = WorldRng::new(42);
    assert_eq!(again.next_u64(), first);
    rng.set_seed(42);
    assert_eq!(rng.next_u64(), first);
}
