use std::collections::BTreeSet;

use num_integer::Integer;
use red_primality::{euler_totient, factor, mobius, CertIter, Prime, PrimeFactorization};

fn test_factor(n: u64, noisy: bool) -> PrimeFactorization {
    let pf = factor(n);
    if noisy {
        println!("factor({}): {:?}", n, pf);
    }
    assert_eq!(pf.product(), n, "test_factor({}) didn't work", n);
    pf
}

#[test]
fn factor_smalls() {
    let limit = 100_000;
    for i in 1..limit {
        if i % 1000 == 0 {
            println!("{}", i);
        }
        test_factor(i, false);
    }
}

#[test]
fn factor_bigs() {
    let radius = 100;
    for n in u64::MAX - radius..=u64::MAX {
        test_factor(n, false);
    }
}

/// Returns a bunch of big primes just under 2^32.
fn medium_primes(count: usize) -> Vec<Prime> {
    let mut ci = CertIter::from(0xff00_0000);
    let mut res = Vec::new();
    while res.len() < count {
        res.push(ci.next().unwrap());
    }
    res
}

#[test]
fn factor_semiprimes() {
    let primes: Vec<Prime> = medium_primes(15);
    for i in 0..primes.len() - 1 {
        for j in i + 1..primes.len() {
            let p1 = primes[i];
            let p2 = primes[j];
            let mut pfguess = PrimeFactorization::new();
            pfguess.add(p1, 1);
            pfguess.add(p2, 1);
            let pf = test_factor(p1.get() * p2.get(), true);
            assert_eq!(pfguess, pf, "factor_semiprimes, p1={:?}, p2={:?}", p1, p2);
        }
    }
}

fn brute_force_totient(n: u64) -> u64 {
    let mut res = 0;
    for i in 1..=n {
        if n.gcd(&i) == 1 {
            res += 1;
        }
    }
    res
}

fn test_totient(n: u64) {
    let t1 = euler_totient(n);
    let t2 = brute_force_totient(n);
    assert_eq!(t1, t2, "test_totient({})", n);
}

#[test]
fn small_totients() {
    for i in 1..1000 {
        test_totient(i);
    }
}

fn brute_force_divisors(n: u64) -> BTreeSet<u64> {
    let mut res = BTreeSet::new();
    for i in 1..=n {
        if n % i == 0 {
            res.insert(i);
        }
    }
    res
}

fn fast_divisors(n: u64) -> BTreeSet<u64> {
    let mut res = BTreeSet::new();
    let fac = factor(n);
    fac.for_all_divisors(|d| {
        res.insert(d);
    });
    res
}

fn test_divisors(n: u64) {
    let d1 = brute_force_divisors(n);
    let d2 = fast_divisors(n);
    assert_eq!(d1, d2, "test_divisors({})", n);
}

#[test]
fn small_divisors() {
    for i in 1..=1000 {
        test_divisors(i);
    }
}

#[test]
fn near_worst_case_semiprime() {
    let facs: Vec<(Prime, u64)> = factor(18302912619494838287).iter();
    let p1 = Prime::new(4278190337).unwrap();
    let p2 = Prime::new(4278190351).unwrap();
    assert_eq!(facs, vec![(p1, 1), (p2, 1)]);
}

#[test]
fn totient_of_180() {
    assert_eq!(euler_totient(180), (1 * 2) * (2 * 3) * (4));
    assert_eq!(factor(180).euler_totient(), 48);
    assert_eq!(euler_totient(1), 1);
    assert_eq!(euler_totient(97), 96);
}

#[test]
fn mobius_of_ratios() {
    assert_eq!(mobius(90, 2), 0); // 90/2 = 45 holds 3^2
    assert_eq!(mobius(90, 3), -1); // 90/3 = 30 = 2*3*5
    assert_eq!(mobius(90, 6), 1); // 90/6 = 15 = 3*5
    assert_eq!(mobius(0, 5), 0);
    assert_eq!(mobius(7, 2), 0);
    assert_eq!(mobius(1, 1), 1);
}

#[test]
fn factoring_is_repeatable() {
    for n in [1_u64, 2, 360, 1_000_003, 18302912619494838287, u64::MAX] {
        assert_eq!(factor(n), factor(n));
    }
}

#[test]
fn one_has_no_factors() {
    let f = factor(1);
    assert!(f.iter().is_empty());
    assert_eq!(f.product(), 1);
    assert_eq!(f.mobius(), 1);
    assert_eq!(f.divisors(), vec![1]);
}

#[test]
fn building_a_factorization() {
    let two = Prime::new(2).unwrap();
    let three = Prime::new(3).unwrap();
    let mut f = PrimeFactorization::new();
    f.add(three, 1);
    f.add(two, 2);
    f.add(two, 0);
    f.add(three, 1);
    assert_eq!(f.iter(), vec![(two, 2), (three, 2)]);
    assert_eq!(f.product(), 36);
    assert_eq!(f.euler_totient(), 12);
    assert_eq!(f.mobius(), 0);
    let mut g = PrimeFactorization::new();
    g.add(Prime::new(5).unwrap(), 1);
    g.add_pf(&f, 2);
    assert_eq!(g.product(), 36 * 36 * 5);
    assert_eq!(g, {
        let mut h = factor(36 * 36);
        h.add(Prime::new(5).unwrap(), 1);
        h
    });
    let mut ds = f.divisors();
    ds.sort();
    assert_eq!(ds, vec![1, 2, 3, 4, 6, 9, 12, 18, 36]);
}

#[test]
fn squarefree_mobius() {
    assert_eq!(factor(30).mobius(), -1);
    assert_eq!(factor(6).mobius(), 1);
    assert_eq!(factor(12).mobius(), 0);
}

#[test]
fn rho_splits_large_composites() {
    // both factors far above the trial-division limit; one polynomial overflows 64 bits
    let n: u64 = 4_294_967_291 * 4_294_967_279;
    let f = factor(n);
    assert_eq!(f.iter().iter().map(|(p, e)| (p.get(), *e)).collect::<Vec<_>>(), vec![(4_294_967_279, 1), (4_294_967_291, 1)]);
    let f = factor(1_000_003 * 1_000_033);
    assert_eq!(f.iter().iter().map(|(p, e)| (p.get(), *e)).collect::<Vec<_>>(), vec![(1_000_003, 1), (1_000_033, 1)]);
    let f = factor(101 * 101 * 103);
    assert_eq!(f.iter().iter().map(|(p, e)| (p.get(), *e)).collect::<Vec<_>>(), vec![(101, 2), (103, 1)]);
}
