use std::cmp::Ordering;

use bigint512::arithmetic::{cmp, rand_int_lt};
use bigint512::random::{RandomSource, ThreadRandom};

/// A deterministic xorshift source, so sampling runs reproducibly under test.
struct XorShift(u64);

impl RandomSource for XorShift {
    fn next_word(&mut self) -> u64 {
        let mut x = self.0;
        x ^= x << 13;
        x ^= x >> 7;
        x ^= x << 17;
        self.0 = x;
        x
    }
}

#[test]
fn sampled_values_stay_below_bound() {
    let bound = vec![0xdead_beefu64, 0x1234, 0, 5];
    let mut out = vec![0u64; 4];
    let mut rng = XorShift(0x853c_49e6_748f_ea9b);
    for _ in 0..500 {
        rand_int_lt(&bound, &mut out, &mut rng);
        assert_eq!(cmp(&out, &bound), Ordering::Less);
    }
}

#[test]
fn sampled_values_stay_below_bound_with_system_source() {
    let bound = vec![1u64, 0, 1 << 40, 0];
    let mut out = vec![0u64; 4];
    let mut rng = ThreadRandom::new();
    for _ in 0..200 {
        rand_int_lt(&bound, &mut out, &mut rng);
        assert_eq!(cmp(&out, &bound), Ordering::Less);
    }
}

#[test]
fn sampling_a_word_bound_is_roughly_uniform() {
    // Frequencies over [0, 8) from 8000 draws: each expects 1000, and a
    // deviation beyond 300 is far outside plausible randomness.
    let bound = vec![8u64];
    let mut out = vec![0u64];
    let mut rng = ThreadRandom::new();
    let mut counts = [0u32; 8];
    for _ in 0..8000 {
        rand_int_lt(&bound, &mut out, &mut rng);
        counts[out[0] as usize] += 1;
    }
    for c in counts {
        assert!(c > 700 && c < 1300, "skewed bucket: {c}");
    }
}

#[test]
fn sampling_below_power_of_two_word_boundary() {
    // A bound whose top bit sits exactly on a limb boundary draws full limbs.
    let bound = vec![0u64, 1];
    let mut out = vec![0u64, 0];
    let mut rng = XorShift(42);
    let mut saw_high_word_bits = false;
    for _ in 0..200 {
        rand_int_lt(&bound, &mut out, &mut rng);
        assert_eq!(cmp(&out, &bound), Ordering::Less);
        if out[0] > u32::MAX as u64 {
            saw_high_word_bits = true;
        }
    }
    assert!(saw_high_word_bits);
}
