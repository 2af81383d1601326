use vstd::arithmetic::div_mod::*;
use vstd::arithmetic::power::*;
use vstd::prelude::*;

use crate::prime::is_prime;

verus! {

/// A prime that divides a product divides one of its factors.
pub proof fn lemma_euclid(p: nat, a: nat, b: nat)
    requires
        is_prime(p),
        (a * b) % p == 0,
    ensures
        a % p == 0 || b % p == 0,
{
    let r = a % p;
    if r != 0 {
        lemma_mul_mod_noop_left(a as int, b as int, p as int);
        lemma_euclid_residue(p, r, b);
    }
}

proof fn lemma_euclid_residue(p: nat, a: nat, b: nat)
    requires
        is_prime(p),
        0 < a < p,
        (a * b) % p == 0,
    ensures
        b % p == 0,
    decreases a,
{
    if a == 1 {
        assert(a * b == b) by (nonlinear_arith)
            requires
                a == 1,
        ;
    } else {
        let q = p / a;
        let r = p % a;
        assert(p % a != 0);
        lemma_fundamental_div_mod(p as int, a as int);
        lemma_fundamental_div_mod((a * b) as int, p as int);
        let k = (a * b) as int / p as int;
        assert(a * b == p * k);
        assert(r * b == p * (b - q * k)) by (nonlinear_arith)
            requires
                p == a * q + r,
                a * b == p * k,
        ;
        lemma_mod_multiples_basic(b - q * k, p as int);
        assert((r * b) % p == 0) by {
            assert(r * b == (b - q * k) * p) by (nonlinear_arith)
                requires
                    r * b == p * (b - q * k),
            ;
        }
        lemma_euclid_residue(p, r, b);
    }
}

/// Modulo a prime, 1 has no square roots but 1 and -1.
pub proof fn lemma_square_roots_of_one(p: nat, x: nat)
    requires
        is_prime(p),
        x < p,
        (x * x) % p == 1,
    ensures
        x == 1 || x == p - 1,
{
    if x == 0 {
        assert(0 * 0 == 0);
    } else {
        lemma_fundamental_div_mod((x * x) as int, p as int);
        let k = (x * x) as int / p as int;
        assert(((x - 1) * (x + 1)) as int == k * p) by (nonlinear_arith)
            requires
                x * x == p * k + 1,
        ;
        lemma_mod_multiples_basic(k, p as int);
        lemma_euclid(p, (x - 1) as nat, x + 1);
        if (x - 1) as nat % p == 0 {
            lemma_small_mod((x - 1) as nat, p);
        } else {
            if x + 1 < p {
                lemma_small_mod(x + 1, p);
            }
        }
    }
}

/// Binomial coefficients, by Pascal's rule.
pub open spec fn binom(n: nat, k: nat) -> nat
    decreases n,
{
    if k == 0 {
        1
    } else if n == 0 {
        0
    } else {
        binom((n - 1) as nat, (k - 1) as nat) + binom((n - 1) as nat, k)
    }
}

/// `binom(n, 0) x^0 + ... + binom(n, k - 1) x^(k - 1)`.
pub open spec fn binom_sum(n: nat, x: int, k: nat) -> int
    decreases k,
{
    if k == 0 {
        0
    } else {
        binom_sum(n, x, (k - 1) as nat) + binom(n, (k - 1) as nat) * pow(x, (k - 1) as nat)
    }
}

proof fn lemma_binom_above(n: nat, k: nat)
    requires
        k > n,
    ensures
        binom(n, k) == 0,
    decreases n,
{
    if n > 0 {
        lemma_binom_above((n - 1) as nat, (k - 1) as nat);
        lemma_binom_above((n - 1) as nat, k);
    }
}

proof fn lemma_binom_top(n: nat)
    ensures
        binom(n, n) == 1,
    decreases n,
{
    if n > 0 {
        lemma_binom_top((n - 1) as nat);
        lemma_binom_above((n - 1) as nat, n);
    }
}

proof fn lemma_binom_one(n: nat)
    ensures
        binom(n, 1) == n,
    decreases n,
{
    if n > 0 {
        lemma_binom_one((n - 1) as nat);
        assert(binom(n, 1) == binom((n - 1) as nat, 0) + binom((n - 1) as nat, 1));
        assert(binom((n - 1) as nat, 0) == 1);
    }
}

/// `k * binom(n, k) == n * binom(n - 1, k - 1)`.
proof fn lemma_binom_absorb(n: nat, k: nat)
    requires
        n >= 1,
        k >= 1,
    ensures
        k * binom(n, k) == n * binom((n - 1) as nat, (k - 1) as nat),
    decreases n,
{
    if k == 1 {
        lemma_binom_one(n);
        assert(binom((n - 1) as nat, 0) == 1);
        assert(1 * binom(n, 1) == n * 1) by (nonlinear_arith)
            requires
                binom(n, 1) == n,
        ;
    } else if n == 1 {
        lemma_binom_above(0, (k - 1) as nat);
        lemma_binom_above(0, k);
        assert(binom(1, k) == binom(0, (k - 1) as nat) + binom(0, k));
        assert(k * 0 == 1 * 0) by (nonlinear_arith);
    } else {
        lemma_binom_absorb((n - 1) as nat, k);
        lemma_binom_absorb((n - 1) as nat, (k - 1) as nat);
        let a = binom((n - 1) as nat, (k - 1) as nat);
        let b = binom((n - 1) as nat, k);
        let c = binom((n - 2) as nat, (k - 1) as nat);
        let d = binom((n - 2) as nat, (k - 2) as nat);
        assert(binom(n, k) == a + b);
        assert(a == d + c);
        assert(k * (a + b) == n * a) by (nonlinear_arith)
            requires
                k * b == (n - 1) * c,
                (k - 1) * a == (n - 1) * d,
                a == d + c,
        ;
    }
}

/// A prime divides the binomial coefficients strictly between the ends.
proof fn lemma_prime_divides_binom(p: nat, k: nat)
    requires
        is_prime(p),
        0 < k < p,
    ensures
        binom(p, k) % p == 0,
{
    lemma_binom_absorb(p, k);
    lemma_mod_multiples_basic(binom((p - 1) as nat, (k - 1) as nat) as int, p as int);
    assert(k * binom(p, k) == binom((p - 1) as nat, (k - 1) as nat) * p) by (nonlinear_arith)
        requires
            k * binom(p, k) == p * binom((p - 1) as nat, (k - 1) as nat),
    ;
    lemma_euclid(p, k, binom(p, k));
    if k % p == 0 {
        lemma_small_mod(k, p);
    }
}

proof fn lemma_binom_sum_one(n: nat, x: int)
    ensures
        binom_sum(n, x, 1) == 1,
{
    reveal(pow);
    assert(binom_sum(n, x, 1) == binom_sum(n, x, 0) + binom(n, 0) * pow(x, 0));
    assert(pow(x, 0) == 1);
    assert(binom(n, 0) == 1);
    assert(binom(n, 0) * pow(x, 0) == 1) by (nonlinear_arith)
        requires
            binom(n, 0) == 1,
            pow(x, 0) == 1,
    ;
}

proof fn lemma_binom_sum_pascal(n: nat, x: int, k: nat)
    ensures
        binom_sum(n + 1, x, k + 1) == binom_sum(n, x, k + 1) + x * binom_sum(n, x, k),
    decreases k,
{
    reveal(pow);
    if k == 0 {
        lemma_binom_sum_one(n + 1, x);
        lemma_binom_sum_one(n, x);
        assert(x * binom_sum(n, x, 0) == 0) by (nonlinear_arith)
            requires
                binom_sum(n, x, 0) == 0,
        ;
    } else {
        lemma_binom_sum_pascal(n, x, (k - 1) as nat);
        let s0 = binom_sum(n, x, (k - 1) as nat);
        let s1 = binom_sum(n, x, k);
        let xk = pow(x, k);
        let xk1 = pow(x, (k - 1) as nat);
        assert(xk == x * xk1);
        let bl = binom(n, (k - 1) as nat) as int;
        let br = binom(n, k) as int;
        assert(binom(n + 1, k) == bl + br);
        assert(s1 == s0 + bl * xk1);
        assert(binom_sum(n, x, k + 1) == s1 + br * xk);
        assert(binom_sum(n + 1, x, k) == binom_sum(n, x, k) + x * s0);
        assert(binom_sum(n + 1, x, k + 1) == binom_sum(n + 1, x, k) + (bl + br) * xk);
        assert((bl + br) * xk == br * xk + x * (bl * xk1)) by (nonlinear_arith)
            requires
                xk == x * xk1,
        ;
        assert(x * s1 == x * s0 + x * (bl * xk1)) by (nonlinear_arith)
            requires
                s1 == s0 + bl * xk1,
        ;
    }
}

/// The binomial theorem for `(x + 1)^n`.
proof fn lemma_binomial(n: nat, x: int)
    ensures
        pow(x + 1, n) == binom_sum(n, x, n + 1),
    decreases n,
{
    reveal(pow);
    if n == 0 {
        lemma_binom_sum_one(0, x);
    } else {
        let m = (n - 1) as nat;
        lemma_binomial(m, x);
        lemma_binom_sum_pascal(m, x, n);
        lemma_binom_above(m, n);
        assert(binom_sum(m, x, n + 1) == binom_sum(m, x, n) + binom(m, n) * pow(x, n));
        assert(binom(m, n) * pow(x, n) == 0) by (nonlinear_arith)
            requires
                binom(m, n) == 0,
        ;
        assert(pow(x + 1, n) == (x + 1) * pow(x + 1, m));
        assert((x + 1) * binom_sum(m, x, n) == binom_sum(m, x, n) + x * binom_sum(m, x, n))
            by (nonlinear_arith);
    }
}

proof fn lemma_binom_sum_mod(p: nat, x: int, k: nat)
    requires
        is_prime(p),
        1 <= k <= p,
    ensures
        binom_sum(p, x, k) % (p as int) == 1,
    decreases k,
{
    reveal(pow);
    if k == 1 {
        lemma_small_mod(1, p);
    } else {
        lemma_binom_sum_mod(p, x, (k - 1) as nat);
        lemma_prime_divides_binom(p, (k - 1) as nat);
        let b = binom(p, (k - 1) as nat);
        lemma_fundamental_div_mod(b as int, p as int);
        let q = b as int / p as int;
        let t = pow(x, (k - 1) as nat);
        assert(b * t == (q * t) * p) by (nonlinear_arith)
            requires
                b == p * q,
        ;
        lemma_mod_multiples_vanish(q * t, binom_sum(p, x, (k - 1) as nat), p as int);
        assert(binom_sum(p, x, k) == p * (q * t) + binom_sum(p, x, (k - 1) as nat)) by (nonlinear_arith)
            requires
                binom_sum(p, x, k) == binom_sum(p, x, (k - 1) as nat) + b * t,
                b * t == (q * t) * p,
        ;
    }
}

/// Fermat's little theorem: `a^p == a (mod p)` for a prime `p`.
pub proof fn lemma_fermat(p: nat, a: nat)
    requires
        is_prime(p),
    ensures
        pow(a as int, p) % (p as int) == a % p,
    decreases a,
{
    reveal(pow);
    if a == 0 {
        lemma0_pow(p);
    } else {
        let x = (a - 1) as nat;
        lemma_fermat(p, x);
        lemma_binomial(p, x as int);
        lemma_binom_top(p);
        lemma_binom_sum_mod(p, x as int, p);
        assert(binom_sum(p, x as int, p + 1) == binom_sum(p, x as int, p) + pow(x as int, p));
        lemma_add_mod_noop(binom_sum(p, x as int, p), pow(x as int, p), p as int);
        lemma_add_mod_noop(1, x as int, p as int);
        lemma_small_mod(1, p);
        assert(x + 1 == a);
    }
}

/// For a prime `p` and `0 < a < p`: `a^(p-1) == 1 (mod p)`.
pub proof fn lemma_fermat_unit(p: nat, a: nat)
    requires
        is_prime(p),
        0 < a < p,
    ensures
        pow(a as int, (p - 1) as nat) % (p as int) == 1,
{
    lemma_fermat(p, a);
    lemma_small_mod(a, p);
    let m = (p - 1) as nat;
    let t = pow(a as int, m);
    assert(pow(a as int, p) == a * t) by {
        reveal(pow);
    }
    lemma_pow_positive(a as int, m);
    lemma_fundamental_div_mod(a * t, p as int);
    let q = (a * t) / (p as int);
    assert(a * (t - 1) == q * p) by (nonlinear_arith)
        requires
            a * t == p * q + a,
    ;
    lemma_mod_multiples_basic(q, p as int);
    lemma_euclid(p, a, (t - 1) as nat);
    lemma_small_mod(a, p);
    lemma_fundamental_div_mod(t - 1, p as int);
    lemma_mod_multiples_vanish((t - 1) / (p as int), 1, p as int);
    lemma_small_mod(1, p);
}

} // verus!
