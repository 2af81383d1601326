use std::num::Wrapping;

use primal::Sieve;
use red_primality::{is_u64_prime, Prime, MAX_U64_PRIME};

fn pow_mod(mut x: u128, mut p: u128, m: u128) -> u128 {
    let mut res = 1;
    x %= m;
    while p > 0 {
        if p & 1 == 1 {
            res = (res * x) % m;
        }
        x = (x * x) % m;
        p >>= 1;
    }
    res
}

fn sprp(n: u128, a: u128) -> bool {
    let d = n - 1;
    let r = d.trailing_zeros();
    let d = d >> r;
    let mut x = pow_mod(a, d, n);
    if x == 1 || x + 1 == n {
        return true;
    }
    for _ in 1..r {
        x = (x * x) % n;
        if x + 1 == n {
            return true;
        }
    }
    false
}

const LIMIT: u64 = 1_000_000;

fn test_prime_consistency(sieve: &Sieve, n: u64) {
    assert_eq!(is_u64_prime(n), sieve.is_prime(n as usize), "Primality test inconsistent for n={}", n);
}

// this won't work right for really small n, but those are already well-tested.
fn excessive_sprp_test(n: u64) -> bool {
    assert!(n > LIMIT);
    let n = n as u128;
    for i in 0..100 {
        let k = 3 + i * 2;
        if !sprp(n, k) {
            return false;
        }
    }
    true
}

fn test_prime_excessive(n: u64) {
    if n < LIMIT {
        return;
    }
    let x_sprp_res = excessive_sprp_test(n);
    let is_prime_res = is_u64_prime(n);
    assert_eq!(x_sprp_res, is_prime_res, "excessive test failed for n={}", n);
}

#[test]
fn prime_dump_end() {
    for p in (u64::MAX - 1000)..=u64::MAX {
        if is_u64_prime(p) {
            println!("{} (2^64 - {}) is prime", p, u64::MAX - p + 1);
        }
    }
}

#[test]
fn small_numbers() {
    let sieve = Sieve::new(LIMIT as usize);
    for i in 0..LIMIT {
        test_prime_consistency(&sieve, i);
    }
}

#[test]
fn big_numbers() {
    let inc = Wrapping(1_234_567_123_456_892_u64); // an arbitrarily chosen big even number
    let mut x = Wrapping(1_u64);
    let count = 10_000;
    for _ in 0..count {
        x += inc;
        test_prime_excessive(x.0);
    }
}

#[test]
fn compare_all_magnitudes() {
    let radius = 1000;
    for mag in 15..=63 {
        let mid: u64 = 1 << mag;
        let start = mid - radius;
        let end = mid + radius;
        for n in start..=end {
            test_prime_excessive(n);
        }
    }
    for n in (u64::MAX - radius)..=u64::MAX {
        test_prime_excessive(n);
    }
}

#[test]
fn largest_prime_is_classified() {
    assert!(is_u64_prime(MAX_U64_PRIME));
    assert_eq!(MAX_U64_PRIME, u64::MAX - 58);
    for n in (MAX_U64_PRIME + 1)..=u64::MAX {
        assert!(!is_u64_prime(n));
    }
}

#[test]
fn band_edges() {
    // strong pseudoprimes to base 2 and to bases 2 and 3 just below the band limits
    assert!(!is_u64_prime(2_047));
    assert!(!is_u64_prime(1_373_653));
    assert!(!is_u64_prime(4_759_123_141));
    assert!(!is_u64_prime(3_215_031_751));
    assert!(is_u64_prime(2));
    assert!(is_u64_prime(3));
    assert!(is_u64_prime(5));
    assert!(!is_u64_prime(0));
    assert!(!is_u64_prime(1));
    assert!(!is_u64_prime(4));
    assert!(is_u64_prime(4_294_967_291));
    assert!(is_u64_prime(4_294_967_311));
}

#[test]
fn certified_prime_values() {
    assert_eq!(Prime::new(4), None);
    assert_eq!(Prime::new(1), None);
    let p = Prime::new(97).unwrap();
    assert_eq!(p.get(), 97);
    assert!(Prime::new(5).unwrap() < Prime::new(7).unwrap());
}
