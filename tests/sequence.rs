use num_integer::Integer;
use red_primality::{is_u64_prime, CertIter, PrimeIter, MAX_U64_PRIME};

#[test]
fn dump_jumps() {
    let len = 210; // 2*3*5*7
    let mut v = Vec::new();
    for i in 0_u64..len {
        for j in 1..30 {
            // the first offset that results in a number sharing no factor with len
            if (i + j).gcd(&len) == 1 {
                v.push(j);
                break;
            }
        }
    }
    let mut tot_jump = 0;
    for i in 0..(v.len() / 2) {
        tot_jump += v[i * 2 + 1];
    }
    println!("average jump len = {}", tot_jump as f64 / (len as f64) * 2.0);
    println!("const PRIME_JUMPS: [u8; {}] = {:?};", len, v);
}

#[test]
fn iter_dump_end() {
    for p in (u64::MAX - 1000)..=u64::MAX {
        if is_u64_prime(p) {
            println!("{} (2^64 - {}) is prime", p, u64::MAX - p + 1);
        }
    }
}

#[test]
fn check_includes_biggest() {
    let start = u64::MAX - 1000;
    let mut ps = PrimeIter::from(start);
    while let Some(p) = ps.next() {
        if p == MAX_U64_PRIME {
            return;
        }
    }
    panic!("Never got biggest u64 prime {}", MAX_U64_PRIME);
}

#[test]
fn compare_iter() {
    const LIMIT: u64 = 1_000_000;
    let mut ps1 = primal::Primes::all().map(|n| n as u64).take_while(|n| n < &LIMIT);
    let mut ps2 = PrimeIter::all();
    loop {
        let v1 = ps1.next();
        let v2 = ps2.next().filter(|n| n < &LIMIT);
        assert_eq!(v1, v2, "Iterators were inconsistent");
        if v1.is_none() {
            break;
        }
    }
}

#[test]
fn largest_prime_is_reached() {
    let mut ps = PrimeIter::from(MAX_U64_PRIME);
    assert_eq!(ps.next(), Some(MAX_U64_PRIME));
    let mut ps = PrimeIter::from(MAX_U64_PRIME - 1);
    assert_eq!(ps.next(), Some(MAX_U64_PRIME));
}

#[test]
fn small_primes_from_five() {
    let mut ps = PrimeIter::from(5);
    let mut got = Vec::new();
    while let Some(p) = ps.next() {
        if p >= 20 {
            break;
        }
        got.push(p);
    }
    assert_eq!(got, vec![5, 7, 11, 13, 17, 19]);
}

#[test]
fn starts_at_a_prime_above_the_wheel() {
    let mut ps = PrimeIter::from(211);
    assert_eq!(ps.next(), Some(211));
    assert_eq!(ps.next(), Some(223));
    let mut ps = PrimeIter::from(212);
    assert_eq!(ps.next(), Some(223));
}

#[test]
fn certified_sequence() {
    let mut ci = CertIter::from(0xff00_0000);
    let p = ci.next().unwrap();
    assert!(p.get() >= 0xff00_0000);
    assert!(is_u64_prime(p.get()));
    let mut ci = CertIter::all();
    assert_eq!(ci.next().map(|p| p.get()), Some(2));
    assert_eq!(ci.next().map(|p| p.get()), Some(3));
    let mut ci = CertIter::from_pi(PrimeIter::from(100));
    assert_eq!(ci.next().map(|p| p.get()), Some(101));
}

#[test]
fn sequence_converts_and_clones() {
    let pi = PrimeIter::from(100);
    let mut copy = pi.clone();
    assert_eq!(copy.next(), Some(101));
    let mut ci: CertIter = pi.into();
    assert_eq!(ci.next().map(|p| p.get()), Some(101));
    assert_eq!(ci.next().map(|p| p.get()), Some(103));
}
