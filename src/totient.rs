use vstd::arithmetic::div_mod::*;
use vstd::arithmetic::power::*;
use vstd::prelude::*;

use crate::factor::{gcd, lemma_gcd_divides, totient_of};
use crate::number_theory::lemma_euclid;
use crate::powers::{is_power_list, keys_above, lemma_power_product_positive, value_of};
use crate::prime::is_prime;
use crate::uniqueness::{lemma_prime_divides_prime_power, lemma_prime_divides_value, prime_keys};

verus! {

/// `j` and `n` have no common divisor of at least 2.
pub open spec fn coprime(j: nat, n: nat) -> bool {
    forall|d: nat| 2 <= d ==> !(#[trigger] (j % d) == 0 && n % d == 0)
}

/// How many `j` with `1 <= j <= k` are coprime to `n`.
pub open spec fn coprime_count(n: nat, k: nat) -> nat
    decreases k,
{
    if k == 0 {
        0
    } else {
        coprime_count(n, (k - 1) as nat) + if coprime(k, n) {
            1nat
        } else {
            0nat
        }
    }
}

/// How many `j` with `1 <= j <= k` are coprime to `n` and multiples of `p`.
spec fn multiple_count(n: nat, p: nat, k: nat) -> nat
    decreases k,
{
    if k == 0 {
        0
    } else {
        multiple_count(n, p, (k - 1) as nat) + if coprime(k, n) && k % p == 0 {
            1nat
        } else {
            0nat
        }
    }
}

/// How many `j` with `1 <= j <= k` are coprime to `n` and not multiples of `p`.
spec fn other_count(n: nat, p: nat, k: nat) -> nat
    decreases k,
{
    if k == 0 {
        0
    } else {
        other_count(n, p, (k - 1) as nat) + if coprime(k, n) && k % p != 0 {
            1nat
        } else {
            0nat
        }
    }
}

pub proof fn lemma_divides_trans(a: nat, b: nat, c: nat)
    requires
        b > 0,
        c > 0,
        a % b == 0,
        b % c == 0,
    ensures
        a % c == 0,
{
    lemma_fundamental_div_mod(a as int, b as int);
    lemma_fundamental_div_mod(b as int, c as int);
    let x = a as int / b as int;
    let y = b as int / c as int;
    assert(a == (x * y) * c) by (nonlinear_arith)
        requires
            a == b * x,
            b == c * y,
    ;
    lemma_mod_multiples_basic(x * y, c as int);
}

/// Every number of at least 2 has a prime divisor.
pub proof fn lemma_prime_divisor(d: nat) -> (q: nat)
    requires
        d >= 2,
    ensures
        is_prime(q),
        d % q == 0,
    decreases d,
{
    if is_prime(d) {
        lemma_mod_self_0(d as int);
        d
    } else {
        let e = choose|e: nat| 2 <= e < d && #[trigger] (d % e) == 0;
        let q = lemma_prime_divisor(e);
        lemma_divides_trans(d, e, q);
        q
    }
}

/// For a prime `p` and `e >= 1`: `j` is coprime to `m * p^e` exactly when it is coprime to
/// `m` and not a multiple of `p`.
proof fn lemma_coprime_with_power(j: nat, m: nat, p: nat, e: nat)
    requires
        is_prime(p),
        e >= 1,
        m >= 1,
    ensures
        coprime(j, (m * pow(p as int, e)) as nat) <==> (coprime(j, m) && j % p != 0),
{
    let n = m * pow(p as int, e);
    lemma_pow_positive(p as int, e);
    reveal(pow);
    let r = pow(p as int, (e - 1) as nat);
    lemma_pow_positive(p as int, (e - 1) as nat);
    assert(pow(p as int, e) == p * r);
    if coprime(j, n as nat) {
        assert forall|d: nat| 2 <= d implies !(#[trigger] (j % d) == 0 && m % d == 0) by {
            if j % d == 0 && m % d == 0 {
                lemma_fundamental_div_mod(m as int, d as int);
                let x = m as int / d as int;
                assert(n == (x * pow(p as int, e)) * d) by (nonlinear_arith)
                    requires
                        n == m * pow(p as int, e),
                        m == d * x,
                ;
                lemma_mod_multiples_basic(x * pow(p as int, e), d as int);
                assert((n as nat) % d == 0);
            }
        }
        if j % p == 0 {
            assert(n == (m * r) * p) by (nonlinear_arith)
                requires
                    n == m * (p * r),
                    pow(p as int, e) == p * r,
            ;
            lemma_mod_multiples_basic(m * r, p as int);
            assert((n as nat) % p == 0);
        }
    }
    if coprime(j, m) && j % p != 0 {
        assert forall|d: nat| 2 <= d implies !(#[trigger] (j % d) == 0 && (n as nat) % d == 0) by {
            if j % d == 0 && (n as nat) % d == 0 {
                let q = lemma_prime_divisor(d);
                lemma_divides_trans(j, d, q);
                lemma_divides_trans(n as nat, d, q);
                lemma_euclid(q, m, pow(p as int, e) as nat);
                if m % q == 0 {
                    assert(j % q == 0 && m % q == 0);
                } else {
                    lemma_prime_divides_prime_power(q, p, e);
                }
            }
        }
    }
}

/// With `p` a prime that does not divide `m`: `p * i` is coprime to `m` exactly when `i` is.
proof fn lemma_coprime_times_prime(i: nat, m: nat, p: nat)
    requires
        is_prime(p),
        m % p != 0,
    ensures
        coprime(p * i, m) <==> coprime(i, m),
{
    if coprime(p * i, m) {
        assert forall|d: nat| 2 <= d implies !(#[trigger] (i % d) == 0 && m % d == 0) by {
            if i % d == 0 && m % d == 0 {
                lemma_fundamental_div_mod(i as int, d as int);
                let x = i as int / d as int;
                assert(p * i == (p * x) * d) by (nonlinear_arith)
                    requires
                        i == d * x,
                ;
                lemma_mod_multiples_basic(p * x, d as int);
                assert((p * i) % d == 0);
            }
        }
    }
    if coprime(i, m) {
        assert forall|d: nat| 2 <= d implies !(#[trigger] ((p * i) % d) == 0 && m % d == 0) by {
            if (p * i) % d == 0 && m % d == 0 {
                let q = lemma_prime_divisor(d);
                lemma_divides_trans(p * i, d, q);
                lemma_divides_trans(m, d, q);
                lemma_euclid(q, p, i);
                if p % q == 0 {
                    if q < p {
                        assert(p % q != 0);
                    } else if q > p {
                        lemma_small_mod(p, q);
                    }
                    assert(m % p == 0);
                } else {
                    assert(i % q == 0 && m % q == 0);
                }
            }
        }
    }
}

proof fn lemma_counts_split(m: nat, p: nat, k: nat)
    ensures
        coprime_count(m, k) == multiple_count(m, p, k) + other_count(m, p, k),
    decreases k,
{
    if k > 0 {
        lemma_counts_split(m, p, (k - 1) as nat);
    }
}

/// Coprimality to `m` repeats with period `m`.
proof fn lemma_coprime_shift(j: nat, m: nat)
    requires
        m >= 1,
    ensures
        coprime(j + m, m) <==> coprime(j, m),
{
    assert forall|d: nat| 2 <= d && #[trigger] (m % d) == 0 implies ((j + m) % d == 0 <==> j % d == 0) by {
        lemma_fundamental_div_mod(m as int, d as int);
        let x = m as int / d as int;
        assert(j + m == d * x + j);
        lemma_mod_multiples_vanish(x, j as int, d as int);
    }
    if coprime(j, m) {
        assert forall|d: nat| 2 <= d implies !(#[trigger] ((j + m) % d) == 0 && m % d == 0) by {
            if m % d == 0 {
                assert(!(j % d == 0 && m % d == 0));
            }
        }
    }
    if coprime(j + m, m) {
        assert forall|d: nat| 2 <= d implies !(#[trigger] (j % d) == 0 && m % d == 0) by {
            if m % d == 0 {
                assert(!((j + m) % d == 0 && m % d == 0));
            }
        }
    }
}

proof fn lemma_count_window(m: nat, k: nat)
    requires
        m >= 1,
    ensures
        coprime_count(m, k + m) == coprime_count(m, k) + coprime_count(m, m),
    decreases k,
{
    if k > 0 {
        lemma_count_window(m, (k - 1) as nat);
        lemma_coprime_shift(k, m);
        assert(coprime_count(m, k + m) == coprime_count(m, (k - 1 + m) as nat) + if coprime(
            k + m,
            m,
        ) {
            1nat
        } else {
            0nat
        });
    }
}

proof fn lemma_count_periods(m: nat, c: nat)
    requires
        m >= 1,
    ensures
        coprime_count(m, c * m) == c * coprime_count(m, m),
    decreases c,
{
    if c == 0 {
        assert(c * m == 0 && c * coprime_count(m, m) == 0) by (nonlinear_arith)
            requires
                c == 0,
        ;
    } else {
        let cm = (c - 1) as nat;
        lemma_count_periods(m, cm);
        let k = cm * m;
        lemma_count_window(m, k);
        assert(c * m == k + m) by (nonlinear_arith)
            requires
                k == cm * m,
                cm + 1 == c,
        ;
        assert(c * coprime_count(m, m) == cm * coprime_count(m, m) + coprime_count(m, m))
            by (nonlinear_arith)
            requires
                cm + 1 == c,
        ;
    }
}

proof fn lemma_multiples_within(m: nat, p: nat, base: nat, r: nat)
    requires
        p >= 2,
        base % p == 0,
        r < p,
    ensures
        multiple_count(m, p, base + r) == multiple_count(m, p, base),
    decreases r,
{
    if r > 0 {
        lemma_multiples_within(m, p, base, (r - 1) as nat);
        lemma_fundamental_div_mod(base as int, p as int);
        let x = base as int / p as int;
        lemma_mod_multiples_vanish(x, r as int, p as int);
        lemma_small_mod(r, p);
        assert((base + r) % p == r);
    }
}

proof fn lemma_multiple_count(m: nat, p: nat, k: nat)
    requires
        is_prime(p),
        m % p != 0,
    ensures
        multiple_count(m, p, p * k) == coprime_count(m, k),
    decreases k,
{
    if k == 0 {
        assert(p * k == 0) by (nonlinear_arith)
            requires
                k == 0,
        ;
    } else {
        let km = (k - 1) as nat;
        let base = p * km;
        lemma_multiple_count(m, p, km);
        lemma_mod_multiples_basic(km as int, p as int);
        assert(base == km * p) by (nonlinear_arith)
            requires
                base == p * km,
        ;
        lemma_multiples_within(m, p, base, (p - 1) as nat);
        assert(p * k == base + p) by (nonlinear_arith)
            requires
                base == p * km,
                km + 1 == k,
        ;
        lemma_mod_multiples_basic(k as int, p as int);
        assert((p * k) % p == 0) by {
            assert(p * k == k * p) by (nonlinear_arith);
        }
        lemma_coprime_times_prime(k, m, p);
        let top = p * k;
        assert(multiple_count(m, p, top) == multiple_count(m, p, (top - 1) as nat) + if coprime(
            top,
            m,
        ) && top % p == 0 {
            1nat
        } else {
            0nat
        });
        assert((top - 1) as nat == base + (p - 1) as nat);
        assert(coprime_count(m, k) == coprime_count(m, km) + if coprime(k, m) {
            1nat
        } else {
            0nat
        });
    }
}

proof fn lemma_other_count_is_power_count(m: nat, p: nat, e: nat, k: nat)
    requires
        is_prime(p),
        e >= 1,
        m >= 1,
    ensures
        coprime_count((m * pow(p as int, e)) as nat, k) == other_count(m, p, k),
    decreases k,
{
    if k > 0 {
        lemma_other_count_is_power_count(m, p, e, (k - 1) as nat);
        lemma_coprime_with_power(k, m, p, e);
    }
}

/// Euler's totient of a factorization into primes counts the numbers from 1 to the number it
/// stands for that are coprime to it.
pub proof fn lemma_totient_counts_coprimes(s: Seq<(u64, u64)>)
    requires
        is_power_list(s),
        prime_keys(s),
    ensures
        totient_of(s) == coprime_count(value_of(s) as nat, value_of(s) as nat),
    decreases s.len(),
{
    if s.len() == 0 {
        assert(coprime(1, 1)) by {
            assert forall|d: nat| 2 <= d implies !(#[trigger] (1nat % d) == 0 && 1nat % d == 0) by {
                lemma_small_mod(1, d);
            }
        }
        assert(coprime_count(1, 1) == coprime_count(1, 0) + 1);
    } else {
        let t = s.drop_last();
        assert forall|i: int| 0 <= i < t.len() implies #[trigger] t[i] == s[i] by {}
        assert(is_power_list(t));
        assert(prime_keys(t));
        assert(keys_above(t, 0)) by {
            assert forall|i: int| 0 <= i < t.len() implies #[trigger] t[i].0 > 0 by {
                assert(is_prime(t[i].0 as nat));
            }
        }
        lemma_power_product_positive(t, 0);
        lemma_totient_counts_coprimes(t);
        let m = value_of(t) as nat;
        let p = s.last().0 as nat;
        let e = s.last().1 as nat;
        assert(s.last() == s[s.len() - 1]);
        assert(is_prime(p));
        assert(e >= 1);
        assert(m % p != 0) by {
            if m % p == 0 {
                lemma_prime_divides_value(p, t);
                let i = choose|i: int| 0 <= i < t.len() && t[i].0 == p;
                assert(s[i].0 < s[s.len() - 1].0);
            }
        }
        let phi = coprime_count(m, m);
        reveal(pow);
        let r = pow(p as int, (e - 1) as nat);
        lemma_pow_positive(p as int, (e - 1) as nat);
        assert(pow(p as int, e) == p * r);
        let n = (m * pow(p as int, e)) as nat;
        assert(n == value_of(s));
        assert(n == (r * p) * m) by (nonlinear_arith)
            requires
                n == m * pow(p as int, e),
                pow(p as int, e) == p * r,
        ;
        lemma_count_periods(m, (r * p) as nat);
        assert(n == p * (r * m)) by (nonlinear_arith)
            requires
                n == (r * p) * m,
        ;
        lemma_multiple_count(m, p, (r * m) as nat);
        lemma_count_periods(m, r as nat);
        lemma_counts_split(m, p, n);
        lemma_other_count_is_power_count(m, p, e, n);
        assert(coprime_count(n, n) == (r * p) * phi - r * phi);
        assert((r * p) * phi - r * phi == phi * (r * (p - 1))) by (nonlinear_arith);
    }
}

/// A common divisor of `a` and `b` divides their gcd.
proof fn lemma_common_divisor_divides_gcd(a: nat, b: nat, d: nat)
    requires
        d > 0,
        a % d == 0,
        b % d == 0,
    ensures
        gcd(a, b) % d == 0,
    decreases b,
{
    if b > 0 {
        lemma_fundamental_div_mod(a as int, b as int);
        lemma_fundamental_div_mod(a as int, d as int);
        lemma_fundamental_div_mod(b as int, d as int);
        let q = a as int / b as int;
        let x = a as int / d as int;
        let y = b as int / d as int;
        let r = a % b;
        assert(r == (x - y * q) * d) by (nonlinear_arith)
            requires
                a == b * q + r,
                a == d * x,
                b == d * y,
        ;
        lemma_mod_multiples_basic(x - y * q, d as int);
        lemma_common_divisor_divides_gcd(b, r, d);
    }
}

/// Coprimality is a gcd of 1.
pub proof fn lemma_coprime_iff_gcd_one(j: nat, n: nat)
    requires
        j > 0 || n > 0,
    ensures
        coprime(j, n) <==> gcd(j, n) == 1,
{
    lemma_gcd_divides(j, n);
    let g = gcd(j, n);
    if g == 1 {
        assert forall|d: nat| 2 <= d implies !(#[trigger] (j % d) == 0 && n % d == 0) by {
            if j % d == 0 && n % d == 0 {
                lemma_common_divisor_divides_gcd(j, n, d);
                lemma_small_mod(1, d);
            }
        }
    }
    if coprime(j, n) && g != 1 {
        assert(j % g == 0 && n % g == 0);
    }
}

} // verus!
