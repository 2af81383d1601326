use vstd::arithmetic::div_mod::*;
use vstd::arithmetic::power::*;
use vstd::arithmetic::power2::*;
use vstd::prelude::*;

use crate::number_theory::{lemma_fermat_unit, lemma_square_roots_of_one};

verus! {

/// `m` with every factor of two divided out (`0` stays `0`).
pub open spec fn odd_part(m: nat) -> nat
    decreases m,
{
    if m > 0 && m % 2 == 0 {
        odd_part(m / 2)
    } else {
        m
    }
}

/// The exponent of the largest power of two that divides `m` (`0` for `m == 0`).
pub open spec fn two_valuation(m: nat) -> nat
    decreases m,
{
    if m > 0 && m % 2 == 0 {
        1 + two_valuation(m / 2)
    } else {
        0
    }
}

/// One Miller-Rabin round: with `n - 1 == 2^s * d` and `d` odd, `n` is a strong probable
/// prime to base `a` when `a^d == 1 (mod n)` or `a^(d * 2^i) == -1 (mod n)` for some `i < s`.
pub open spec fn is_strong_probable_prime(n: nat, a: nat) -> bool {
    let d = odd_part((n - 1) as nat);
    let s = two_valuation((n - 1) as nat);
    pow(a as int, d) % (n as int) == 1 || exists|i: nat|
        i < s && #[trigger] pow(a as int, d * pow2(i)) % (n as int) == n - 1
}

/// The verdict of the primality oracle: 2 and 3 are prime, other even numbers and numbers
/// below 5 are not, and every other `n` is prime when it is a strong probable prime to each
/// witness of its magnitude band.
pub open spec fn oracle_prime(n: nat) -> bool {
    if n == 2 || n == 3 {
        true
    } else if n % 2 == 0 || n < 5 {
        false
    } else if n < 2_047 {
        is_strong_probable_prime(n, 2)
    } else if n < 1_373_653 {
        is_strong_probable_prime(n, 2) && is_strong_probable_prime(n, 3)
    } else if n < 4_759_123_141 {
        is_strong_probable_prime(n, 2) && is_strong_probable_prime(n, 7)
            && is_strong_probable_prime(n, 61)
    } else {
        is_strong_probable_prime(n, 2) && is_strong_probable_prime(n, 3)
            && is_strong_probable_prime(n, 5) && is_strong_probable_prime(n, 7)
            && is_strong_probable_prime(n, 11) && is_strong_probable_prime(n, 13)
            && is_strong_probable_prime(n, 17) && is_strong_probable_prime(n, 19)
            && is_strong_probable_prime(n, 23) && is_strong_probable_prime(n, 29)
            && is_strong_probable_prime(n, 31) && is_strong_probable_prime(n, 37)
    }
}

/// Primality in the mathematical sense.
pub open spec fn is_prime(n: nat) -> bool {
    n >= 2 && forall|d: nat| 2 <= d < n ==> #[trigger] (n % d) != 0
}

/// The oracle accepts no number below 2.
pub proof fn lemma_oracle_at_least_two(n: nat)
    requires
        oracle_prime(n),
    ensures
        n >= 2,
{
}

proof fn lemma_pow_mod_odd_step(res: int, x: int, p: nat, m: int)
    requires
        m > 0,
        p > 0,
    ensures
        ((res * x) % m) * pow(x, (p - 1) as nat) % m == res * pow(x, p) % m,
{
    lemma_mul_mod_noop_left(res * x, pow(x, (p - 1) as nat), m);
    assert(pow(x, p) == x * pow(x, (p - 1) as nat)) by {
        reveal(pow);
    }
    assert((res * x) * pow(x, (p - 1) as nat) == res * (x * pow(x, (p - 1) as nat)))
        by (nonlinear_arith);
}

proof fn lemma_pow_mod_square_step(res: int, x: int, p: nat, m: int)
    requires
        m > 0,
        p % 2 == 0,
    ensures
        res * pow((x * x) % m, p / 2) % m == res * pow(x, p) % m,
{
    let e = p / 2;
    lemma_mul_mod_noop_right(res, pow((x * x) % m, e), m);
    lemma_pow_mod_noop(x * x, e, m);
    lemma_mul_mod_noop_right(res, pow(x * x, e), m);
    lemma_square_is_pow2(x);
    lemma_pow_multiplies(x, 2, e);
    assert(2 * e == p);
}

/// `pow(a, k) mod n` squared, mod `n`, is `pow(a, 2k) mod n`.
proof fn lemma_square_mod(a: int, k: nat, n: int)
    requires
        n > 0,
    ensures
        (pow(a, k) % n) * (pow(a, k) % n) % n == pow(a, 2 * k) % n,
{
    lemma_mul_mod_noop(pow(a, k), pow(a, k), n);
    lemma_pow_adds(a, k, k);
}

/// Splits `m` into its odd part and its power of two.
proof fn lemma_halve(m: nat)
    requires
        m > 0,
        m % 2 == 0,
    ensures
        odd_part(m / 2) == odd_part(m),
        two_valuation(m / 2) + 1 == two_valuation(m),
{
}

proof fn lemma_odd_fixed(m: nat)
    requires
        m % 2 == 1,
    ensures
        odd_part(m) == m,
        two_valuation(m) == 0,
{
}

proof fn lemma_two_valuation_bound(m: nat)
    ensures
        two_valuation(m) <= m,
    decreases m,
{
    if m > 0 && m % 2 == 0 {
        lemma_two_valuation_bound(m / 2);
    }
}

proof fn lemma_square_fits_u128(m: u128)
    requires
        1 <= m <= u64::MAX,
    ensures
        (m - 1) * (m - 1) <= u128::MAX,
{
    assert((m - 1) * (m - 1) <= u128::MAX) by (nonlinear_arith)
        requires
            1 <= m <= u64::MAX,
    ;
}

/// `m` is its odd part times a power of two.
proof fn lemma_odd_decomposition(m: nat)
    requires
        m > 0,
    ensures
        m == odd_part(m) * pow2(two_valuation(m)),
        odd_part(m) % 2 == 1,
    decreases m,
{
    if m % 2 == 0 {
        lemma_odd_decomposition(m / 2);
        lemma_pow2_unfold(two_valuation(m));
        let d = odd_part(m / 2);
        let e = pow2(two_valuation(m / 2));
        assert(m == d * (2 * e)) by (nonlinear_arith)
            requires
                m / 2 == d * e,
                m % 2 == 0,
        ;
    } else {
        lemma_pow2(0);
        reveal(pow);
        assert(pow2(0) == 1);
        assert(m == odd_part(m) * pow2(0)) by (nonlinear_arith)
            requires
                odd_part(m) == m,
                pow2(0) == 1,
        ;
    }
}

/// Walks down from a power that is 1 to the square root of 1 that is -1.
proof fn lemma_find_minus_one(n: nat, a: nat, d: nat, k: nat)
    requires
        is_prime(n),
        pow(a as int, d * pow2(k)) % (n as int) == 1,
        pow(a as int, d * pow2(0)) % (n as int) != 1,
    ensures
        exists|i: nat| i < k && #[trigger] pow(a as int, d * pow2(i)) % (n as int) == n - 1,
    decreases k,
{
    let km = (k - 1) as nat;
    let big = d * pow2(km);
    lemma_square_mod(a as int, big, n as int);
    lemma_pow2_unfold(k);
    assert(2 * big == d * pow2(k)) by (nonlinear_arith)
        requires
            pow2(k) == 2 * pow2(km),
            big == d * pow2(km),
    ;
    let y = pow(a as int, big) % (n as int);
    if y == 1 {
        lemma_find_minus_one(n, a, d, km);
    } else {
        lemma_square_roots_of_one(n, y as nat);
        assert(pow(a as int, d * pow2(km)) % (n as int) == n - 1);
    }
}

/// A prime is a strong probable prime to every base that it does not divide.
pub proof fn lemma_prime_is_strong_probable_prime(n: nat, a: nat)
    requires
        is_prime(n),
        a % n != 0,
    ensures
        is_strong_probable_prime(n, a),
{
    let m = (n - 1) as nat;
    let d = odd_part(m);
    let s = two_valuation(m);
    lemma_odd_decomposition(m);
    lemma_fermat_unit(n, a % n);
    lemma_pow_mod_noop(a as int, m, n as int);
    assert(d * pow2(s) == m);
    lemma_pow2(0);
    reveal(pow);
    assert(pow2(0) == 1);
    assert(d * pow2(0) == d) by (nonlinear_arith)
        requires
            pow2(0) == 1,
    ;
    if pow(a as int, d) % (n as int) != 1 {
        lemma_find_minus_one(n, a, d, s);
    }
}

proof fn lemma_base_below(n: nat, a: nat)
    requires
        is_prime(n),
        0 < a < n,
    ensures
        is_strong_probable_prime(n, a),
{
    lemma_small_mod(a, n);
    lemma_prime_is_strong_probable_prime(n, a);
}

/// Every prime passes the oracle.
pub proof fn lemma_prime_passes_oracle(n: nat)
    requires
        is_prime(n),
    ensures
        oracle_prime(n),
{
    if n != 2 && n != 3 {
        assert(n % 2 != 0);
        if n == 4 {
            assert(4nat % 2 == 0);
        }
        lemma_base_below(n, 2);
        if n >= 2_047 {
            lemma_base_below(n, 3);
            lemma_base_below(n, 7);
            lemma_base_below(n, 61);
        }
        if n >= 4_759_123_141 {
            lemma_base_below(n, 5);
            lemma_base_below(n, 11);
            lemma_base_below(n, 13);
            lemma_base_below(n, 17);
            lemma_base_below(n, 19);
            lemma_base_below(n, 23);
            lemma_base_below(n, 29);
            lemma_base_below(n, 31);
            lemma_base_below(n, 37);
        }
    }
}

/// Modular exponentiation by repeated squaring in 64-bit arithmetic.
fn pow_mod_u64(x: u64, p: u64, m: u64) -> (r: u64)
    requires
        1 < m,
        x * x <= u64::MAX,
        (m - 1) * (m - 1) <= u64::MAX,
    ensures
        r as int == pow(x as int, p as nat) % (m as int),
{
    let ghost x0 = x as int;
    let ghost p0 = p as nat;
    let mut x = x;
    let mut p = p;
    let mut res: u64 = 1;
    proof {
        lemma_small_mod(1, m as nat);
    }
    loop
        invariant
            1 < m,
            (m - 1) * (m - 1) <= u64::MAX,
            x * x <= u64::MAX,
            res < m,
            (res as int) * pow(x as int, p as nat) % (m as int) == pow(x0, p0) % (m as int),
        ensures
            res as int == pow(x0, p0) % (m as int),
        decreases p,
    {
        if p % 2 == 1 {
            proof {
                lemma_pow_mod_odd_step(res as int, x as int, p as nat, m as int);
                assert(res * x <= u64::MAX) by (nonlinear_arith)
                    requires
                        res < m,
                        x * x <= u64::MAX,
                        (m - 1) * (m - 1) <= u64::MAX,
                ;
            }
            res = (res * x) % m;
            p = p - 1;
        }
        if p > 0 {
            proof {
                lemma_pow_mod_square_step(res as int, x as int, p as nat, m as int);
            }
            x = (x * x) % m;
            proof {
                assert(x * x <= (m - 1) * (m - 1)) by (nonlinear_arith)
                    requires
                        x < m,
                ;
            }
            p = p / 2;
        } else {
            proof {
                assert(pow(x as int, 0) == 1) by {
                    reveal(pow);
                }
                lemma_small_mod(res as nat, m as nat);
                assert((res as int) * 1 == res as int);
            }
            break ;
        }
    }
    res
}

/// Modular exponentiation by repeated squaring in 128-bit arithmetic.
fn pow_mod_u128(x: u128, p: u128, m: u128) -> (r: u128)
    requires
        1 < m,
        x * x <= u128::MAX,
        (m - 1) * (m - 1) <= u128::MAX,
    ensures
        r as int == pow(x as int, p as nat) % (m as int),
{
    let ghost x0 = x as int;
    let ghost p0 = p as nat;
    let mut x = x;
    let mut p = p;
    let mut res: u128 = 1;
    proof {
        lemma_small_mod(1, m as nat);
    }
    loop
        invariant
            1 < m,
            (m - 1) * (m - 1) <= u128::MAX,
            x * x <= u128::MAX,
            res < m,
            (res as int) * pow(x as int, p as nat) % (m as int) == pow(x0, p0) % (m as int),
        ensures
            res as int == pow(x0, p0) % (m as int),
        decreases p,
    {
        if p % 2 == 1 {
            proof {
                lemma_pow_mod_odd_step(res as int, x as int, p as nat, m as int);
                assert(res * x <= u128::MAX) by (nonlinear_arith)
                    requires
                        res < m,
                        x * x <= u128::MAX,
                        (m - 1) * (m - 1) <= u128::MAX,
                ;
            }
            res = (res * x) % m;
            p = p - 1;
        }
        if p > 0 {
            proof {
                lemma_pow_mod_square_step(res as int, x as int, p as nat, m as int);
            }
            x = (x * x) % m;
            proof {
                assert(x * x <= (m - 1) * (m - 1)) by (nonlinear_arith)
                    requires
                        x < m,
                ;
            }
            p = p / 2;
        } else {
            proof {
                assert(pow(x as int, 0) == 1) by {
                    reveal(pow);
                }
                lemma_small_mod(res as nat, m as nat);
                assert((res as int) * 1 == res as int);
            }
            break ;
        }
    }
    res
}


/// One strong probable-prime round for `n` to base `a`, in 64-bit arithmetic.
fn sprp_u64(n: u64, a: u8) -> (r: bool)
    requires
        3 <= n,
        n % 2 == 1,
        (n - 1) * (n - 1) <= u64::MAX,
    ensures
        r == is_strong_probable_prime(n as nat, a as nat),
{
    let base = a as u64;
    let mut d = n - 1;
    let mut s: u64 = 0;
    proof {
        lemma_two_valuation_bound((n - 1) as nat);
    }
    while d % 2 == 0
        invariant
            0 < d < n,
            odd_part(d as nat) == odd_part((n - 1) as nat),
            s + two_valuation(d as nat) == two_valuation((n - 1) as nat),
            two_valuation((n - 1) as nat) < n,
        decreases d,
    {
        proof {
            lemma_halve(d as nat);
        }
        d = d / 2;
        s = s + 1;
    }
    proof {
        lemma_odd_fixed(d as nat);
    }
    let ghost nn = n as int;
    let ghost dd = d as nat;
    proof {
        assert(base * base <= 65025) by (nonlinear_arith)
            requires
                base <= 255,
        ;
    }
    let mut x = pow_mod_u64(base, d, n);
    if x == 1 {
        return true;
    }
    proof {
        lemma_pow2(0);
        reveal(pow);
        assert(dd * pow2(0) == dd);
    }
    if x + 1 == n {
        assert(pow(a as int, dd * pow2(0)) % nn == n - 1);
        return true;
    }
    let mut i: u64 = 1;
    while i < s
        invariant
            1 <= i <= s,
            s == two_valuation((n - 1) as nat),
            dd == odd_part((n - 1) as nat),
            3 <= n,
            nn == n,
            (n - 1) * (n - 1) <= u64::MAX,
            x < n,
            x as int == pow(a as int, dd * pow2((i - 1) as nat)) % nn,
            forall|j: nat| j < i ==> #[trigger] pow(a as int, dd * pow2(j)) % nn != n - 1,
        decreases s - i,
    {
        proof {
            lemma_square_mod(a as int, dd * pow2((i - 1) as nat), nn);
            lemma_pow2_unfold(i as nat);
            assert(2 * (dd * pow2((i - 1) as nat)) == dd * pow2(i as nat)) by (nonlinear_arith)
                requires
                    pow2(i as nat) == 2 * pow2((i - 1) as nat),
            ;
            assert(x * x <= (n - 1) * (n - 1)) by (nonlinear_arith)
                requires
                    x < n,
            ;
        }
        x = (x * x) % n;
        if x + 1 == n {
            assert(pow(a as int, dd * pow2(i as nat)) % nn == n - 1);
            assert(is_strong_probable_prime(n as nat, a as nat));
            return true;
        }
        i = i + 1;
    }
    false
}

/// One strong probable-prime round for `n` to base `a`, in 128-bit arithmetic.
fn sprp_u128(n: u128, a: u8) -> (r: bool)
    requires
        3 <= n,
        n % 2 == 1,
        (n - 1) * (n - 1) <= u128::MAX,
    ensures
        r == is_strong_probable_prime(n as nat, a as nat),
{
    let base = a as u128;
    let mut d = n - 1;
    let mut s: u128 = 0;
    proof {
        lemma_two_valuation_bound((n - 1) as nat);
    }
    while d % 2 == 0
        invariant
            0 < d < n,
            odd_part(d as nat) == odd_part((n - 1) as nat),
            s + two_valuation(d as nat) == two_valuation((n - 1) as nat),
            two_valuation((n - 1) as nat) < n,
        decreases d,
    {
        proof {
            lemma_halve(d as nat);
        }
        d = d / 2;
        s = s + 1;
    }
    proof {
        lemma_odd_fixed(d as nat);
    }
    let ghost nn = n as int;
    let ghost dd = d as nat;
    proof {
        assert(base * base <= 65025) by (nonlinear_arith)
            requires
                base <= 255,
        ;
    }
    let mut x = pow_mod_u128(base, d, n);
    if x == 1 {
        return true;
    }
    proof {
        lemma_pow2(0);
        reveal(pow);
        assert(dd * pow2(0) == dd);
    }
    if x + 1 == n {
        assert(pow(a as int, dd * pow2(0)) % nn == n - 1);
        return true;
    }
    let mut i: u128 = 1;
    while i < s
        invariant
            1 <= i <= s,
            s == two_valuation((n - 1) as nat),
            dd == odd_part((n - 1) as nat),
            3 <= n,
            nn == n,
            (n - 1) * (n - 1) <= u128::MAX,
            x < n,
            x as int == pow(a as int, dd * pow2((i - 1) as nat)) % nn,
            forall|j: nat| j < i ==> #[trigger] pow(a as int, dd * pow2(j)) % nn != n - 1,
        decreases s - i,
    {
        proof {
            lemma_square_mod(a as int, dd * pow2((i - 1) as nat), nn);
            lemma_pow2_unfold(i as nat);
            assert(2 * (dd * pow2((i - 1) as nat)) == dd * pow2(i as nat)) by (nonlinear_arith)
                requires
                    pow2(i as nat) == 2 * pow2((i - 1) as nat),
            ;
            assert(x * x <= (n - 1) * (n - 1)) by (nonlinear_arith)
                requires
                    x < n,
            ;
        }
        x = (x * x) % n;
        if x + 1 == n {
            assert(pow(a as int, dd * pow2(i as nat)) % nn == n - 1);
            assert(is_strong_probable_prime(n as nat, a as nat));
            return true;
        }
        i = i + 1;
    }
    false
}

/// Determines whether `n` is prime, deterministically for every `u64`.
///
/// Runs the strong probable-prime test against a witness set that is known to be exhaustive
/// for the magnitude band of `n`; the result is exactly the oracle's verdict.
pub fn is_u64_prime(n: u64) -> (r: bool)
    ensures
        r == oracle_prime(n as nat),
{
    if n == 2 || n == 3 {
        true
    } else if n % 2 == 0 || n < 5 {
        false
    } else if n <= 0xffff_ffff && n < 4_759_123_141 {
        proof {
            assert((n - 1) * (n - 1) <= u64::MAX) by (nonlinear_arith)
                requires
                    n <= 0xffff_ffff,
                    n >= 1,
            ;
        }
        if n < 2_047 {
            sprp_u64(n, 2)
        } else if n < 1_373_653 {
            sprp_u64(n, 2) && sprp_u64(n, 3)
        } else {
            sprp_u64(n, 2) && sprp_u64(n, 7) && sprp_u64(n, 61)
        }
    } else if n < 4_759_123_141 {
        let m = n as u128;
        proof {
            lemma_square_fits_u128(m);
        }
        sprp_u128(m, 2) && sprp_u128(m, 7) && sprp_u128(m, 61)
    } else {
        let m = n as u128;
        proof {
            lemma_square_fits_u128(m);
        }
        sprp_u128(m, 2) && sprp_u128(m, 3) && sprp_u128(m, 5) && sprp_u128(m, 7) && sprp_u128(
            m,
            11,
        ) && sprp_u128(m, 13) && sprp_u128(m, 17) && sprp_u128(m, 19) && sprp_u128(m, 23)
            && sprp_u128(m, 29) && sprp_u128(m, 31) && sprp_u128(m, 37)
    }
}

/// The largest prime that fits in a `u64`: `2^64 - 59`.
pub const MAX_U64_PRIME: u64 = 18_446_744_073_709_551_557;

/// A `u64` certified prime by the oracle.
#[derive(Clone, Copy, Debug, PartialEq, Eq, PartialOrd, Ord, Hash)]
pub struct Prime {
    n: u64,
}

impl View for Prime {
    type V = u64;

    closed spec fn view(&self) -> u64 {
        self.n
    }
}

impl Prime {
    #[verifier::type_invariant]
    closed spec fn certified(self) -> bool {
        oracle_prime(self.n as nat)
    }

    /// Produces a certified prime when the oracle accepts `n`.
    pub fn new(n: u64) -> (r: Option<Prime>)
        ensures
            r.is_some() <==> oracle_prime(n as nat),
            r matches Some(p) ==> p@ == n,
    {
        if is_u64_prime(n) {
            Some(Prime { n })
        } else {
            None
        }
    }

    /// Wraps a value that the caller has already seen the oracle accept.
    pub(crate) fn from_certified(n: u64) -> (r: Prime)
        requires
            oracle_prime(n as nat),
        ensures
            r@ == n,
    {
        Prime { n }
    }

    /// The contained prime.
    pub fn get(&self) -> (r: u64)
        ensures
            r == self@,
            oracle_prime(r as nat),
    {
        proof {
            use_type_invariant(self);
        }
        self.n
    }
}
} // verus!
