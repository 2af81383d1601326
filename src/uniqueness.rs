use vstd::arithmetic::div_mod::*;
use vstd::arithmetic::power::*;
use vstd::prelude::*;

use crate::factor::{builds_divisor, lemma_builds_divisor_empty, lemma_builds_divisor_step};
use crate::number_theory::lemma_euclid;
use crate::powers::{
    is_power_list, keys_above, lemma_power_product_positive, power_product, value_of,
};
use crate::prime::is_prime;

verus! {

/// Every key of `s` is prime.
pub open spec fn prime_keys(s: Seq<(u64, u64)>) -> bool {
    forall|i: int| 0 <= i < s.len() ==> is_prime(#[trigger] s[i].0 as nat)
}

proof fn lemma_drop_last(s: Seq<(u64, u64)>)
    requires
        s.len() > 0,
        is_power_list(s),
        prime_keys(s),
    ensures
        is_power_list(s.drop_last()),
        prime_keys(s.drop_last()),
        keys_above(s, 1),
        keys_above(s.drop_last(), 1),
        forall|i: int| 0 <= i < s.len() - 1 ==> #[trigger] s[i].0 < s.last().0,
        s.last().1 >= 1,
        s.drop_last().push(s.last()) == s,
{
    let t = s.drop_last();
    assert forall|i: int| 0 <= i < t.len() implies #[trigger] t[i] == s[i] by {}
    assert(s.last() == s[s.len() - 1]);
    assert(t.push(s.last()) =~= s);
}

/// A prime that divides a power of a prime is that prime.
pub proof fn lemma_prime_divides_prime_power(p: nat, q: nat, e: nat)
    requires
        is_prime(p),
        is_prime(q),
        pow(q as int, e) % (p as int) == 0,
    ensures
        p == q,
    decreases e,
{
    reveal(pow);
    if e == 0 {
        lemma_small_mod(1, p);
    } else {
        let r = pow(q as int, (e - 1) as nat);
        lemma_pow_positive(q as int, (e - 1) as nat);
        assert(pow(q as int, e) == q * r);
        lemma_euclid(p, q, r as nat);
        if q % p == 0 {
            if p < q {
                assert(q % p != 0);
            } else if p > q {
                lemma_small_mod(q, p);
            }
        } else {
            lemma_prime_divides_prime_power(p, q, (e - 1) as nat);
        }
    }
}

/// A prime that divides the number a list of prime powers stands for is one of its keys.
pub proof fn lemma_prime_divides_value(p: nat, s: Seq<(u64, u64)>)
    requires
        is_prime(p),
        is_power_list(s),
        prime_keys(s),
        value_of(s) % (p as int) == 0,
    ensures
        exists|i: int| 0 <= i < s.len() && s[i].0 == p,
    decreases s.len(),
{
    if s.len() == 0 {
        lemma_small_mod(1, p);
    } else {
        let t = s.drop_last();
        lemma_drop_last(s);
        assert(keys_above(t, 0));
        lemma_power_product_positive(t, 0);
        let q = s.last().0 as nat;
        let e = s.last().1 as nat;
        lemma_pow_positive(q as int, e);
        lemma_euclid(p, value_of(t) as nat, pow(q as int, e) as nat);
        if value_of(t) % (p as int) == 0 {
            lemma_prime_divides_value(p, t);
            let i = choose|i: int| 0 <= i < t.len() && t[i].0 == p;
            assert(s[i] == t[i]);
        } else {
            assert(is_prime(s[s.len() - 1].0 as nat));
            lemma_prime_divides_prime_power(p, q, e);
            assert(s[s.len() - 1].0 == p);
        }
    }
}

/// The last key of a non-empty list divides the number it stands for.
proof fn lemma_last_key_divides(s: Seq<(u64, u64)>)
    requires
        s.len() > 0,
        is_power_list(s),
        prime_keys(s),
    ensures
        value_of(s) % (s.last().0 as int) == 0,
        value_of(s) >= 2,
{
    lemma_drop_last(s);
    let t = s.drop_last();
    assert(keys_above(t, 0));
    lemma_power_product_positive(t, 0);
    let p = s.last().0 as int;
    let a = s.last().1 as nat;
    reveal(pow);
    let r = pow(p, (a - 1) as nat);
    lemma_pow_positive(p, (a - 1) as nat);
    assert(pow(p, a) == p * r);
    let x = value_of(t);
    assert(value_of(s) == (x * r) * p) by (nonlinear_arith)
        requires
            value_of(s) == x * pow(p, a),
            pow(p, a) == p * r,
    ;
    lemma_mod_multiples_basic(x * r, p);
    assert(x * r * p >= 2) by (nonlinear_arith)
        requires
            x >= 1,
            r >= 1,
            p >= 2,
    ;
}

/// A number has one factorization into primes: two canonical lists of prime powers that
/// stand for the same number are equal.
pub proof fn lemma_unique_factorization(s: Seq<(u64, u64)>, t: Seq<(u64, u64)>)
    requires
        is_power_list(s),
        is_power_list(t),
        prime_keys(s),
        prime_keys(t),
        value_of(s) == value_of(t),
    ensures
        s == t,
    decreases s.len() + t.len(),
{
    if s.len() == 0 && t.len() == 0 {
        assert(s =~= t);
    } else if s.len() == 0 {
        lemma_last_key_divides(t);
    } else if t.len() == 0 {
        lemma_last_key_divides(s);
    } else {
        lemma_drop_last(s);
        lemma_drop_last(t);
        let p = s.last().0;
        let q = t.last().0;
        lemma_last_key_divides(s);
        lemma_last_key_divides(t);
        assert(is_prime(s[s.len() - 1].0 as nat));
        assert(is_prime(t[t.len() - 1].0 as nat));
        lemma_prime_divides_value(p as nat, t);
        lemma_prime_divides_value(q as nat, s);
        assert(p <= q) by {
            let i = choose|i: int| 0 <= i < t.len() && t[i].0 == p;
            if i < t.len() - 1 {
                assert(t[i].0 < q);
            } else {
                assert(t[i] == t.last());
            }
        }
        assert(q <= p) by {
            let i = choose|i: int| 0 <= i < s.len() && s[i].0 == q;
            if i < s.len() - 1 {
                assert(s[i].0 < p);
            } else {
                assert(s[i] == s.last());
            }
        }
        let a = s.last().1 as nat;
        let b = t.last().1 as nat;
        let x = value_of(s.drop_last());
        let y = value_of(t.drop_last());
        assert(x * pow(p as int, a) == y * pow(p as int, b));
        if a != b {
            if a < b {
                lemma_cancel_power(s.drop_last(), t.drop_last(), p as int, a, b);
            } else {
                lemma_cancel_power(t.drop_last(), s.drop_last(), p as int, b, a);
            }
        }
        lemma_pow_positive(p as int, a);
        assert(x == y) by (nonlinear_arith)
            requires
                x * pow(p as int, a) == y * pow(p as int, a),
                pow(p as int, a) > 0,
        ;
        lemma_unique_factorization(s.drop_last(), t.drop_last());
        assert(s.last() == t.last());
    }
}

/// When `s` has only keys below the prime `p`, its number times `p^a` can equal another's
/// times `p^b` only with `a >= b`.
proof fn lemma_cancel_power(s: Seq<(u64, u64)>, t: Seq<(u64, u64)>, p: int, a: nat, b: nat)
    requires
        is_power_list(s),
        is_power_list(t),
        prime_keys(s),
        prime_keys(t),
        p >= 2,
        is_prime(p as nat),
        forall|i: int| 0 <= i < s.len() ==> #[trigger] s[i].0 < p,
        keys_above(t, 1),
        value_of(s) * pow(p, a) == value_of(t) * pow(p, b),
    ensures
        a >= b,
{
    if a < b {
        lemma_power_gap(s, t, p, a, b);
        let i = choose|i: int| 0 <= i < s.len() && s[i].0 == p;
        assert(s[i].0 < p);
    }
}

proof fn lemma_power_gap(s: Seq<(u64, u64)>, t: Seq<(u64, u64)>, p: int, a: nat, b: nat)
    requires
        is_power_list(s),
        prime_keys(s),
        p >= 2,
        is_prime(p as nat),
        forall|i: int| 0 <= i < s.len() ==> #[trigger] s[i].0 < p,
        keys_above(t, 1),
        a < b,
        value_of(s) * pow(p, a) == value_of(t) * pow(p, b),
    ensures
        exists|i: int| 0 <= i < s.len() && s[i].0 == p,
{
    let x = value_of(s);
    let y = value_of(t);
    let c = (b - a) as nat;
    lemma_pow_adds(p, a, c);
    lemma_pow_positive(p, a);
    assert(x == y * pow(p, c)) by (nonlinear_arith)
        requires
            x * pow(p, a) == y * (pow(p, a) * pow(p, c)),
            pow(p, a) > 0,
    ;
    reveal(pow);
    lemma_pow_positive(p, (c - 1) as nat);
    assert(pow(p, c) == p * pow(p, (c - 1) as nat));
    assert(x == (y * pow(p, (c - 1) as nat)) * p) by (nonlinear_arith)
        requires
            x == y * pow(p, c),
            pow(p, c) == p * pow(p, (c - 1) as nat),
    ;
    lemma_mod_multiples_basic(y * pow(p, (c - 1) as nat), p);
    lemma_prime_divides_value(p as nat, s);
}

/// The factorization of a product of two distinct primes `p < q` into primes is
/// `[(p, 1), (q, 1)]`.
pub proof fn lemma_semiprime_factorization(p: u64, q: u64, s: Seq<(u64, u64)>)
    requires
        is_prime(p as nat),
        is_prime(q as nat),
        p < q,
        is_power_list(s),
        prime_keys(s),
        value_of(s) == p * q,
    ensures
        s == seq![(p, 1u64), (q, 1u64)],
{
    let t = seq![(p, 1u64), (q, 1u64)];
    reveal(pow);
    assert(t.drop_last().drop_last() =~= Seq::<(u64, u64)>::empty());
    assert(t.drop_last() =~= seq![(p, 1u64)]);
    lemma_pow1(p as int);
    lemma_pow1(q as int);
    let u = seq![(p, 1u64)];
    assert(u.drop_last() =~= Seq::<(u64, u64)>::empty());
    assert(u.last() == (p, 1u64));
    assert(power_product(u.drop_last(), 0) == 1);
    assert(power_product(u, 0) == power_product(u.drop_last(), 0) * pow(p - 0, 1));
    assert(value_of(t.drop_last()) == p);
    assert(value_of(t) == p * q);
    assert(prime_keys(t));
    lemma_unique_factorization(s, t);
}

/// Divides out every factor `p` of `d`: `d == rest * p^k` with `p` not dividing `rest`.
proof fn lemma_split_off_prime(d: int, p: int) -> (r: (int, nat))
    requires
        d >= 1,
        p >= 2,
    ensures
        r.0 >= 1,
        r.0 % p != 0,
        d == r.0 * pow(p, r.1),
    decreases d,
{
    reveal(pow);
    if d % p == 0 {
        lemma_fundamental_div_mod(d, p);
        let q = d / p;
        assert(1 <= q < d) by (nonlinear_arith)
            requires
                d == p * q,
                d >= 1,
                p >= 2,
        ;
        let (rest, k) = lemma_split_off_prime(q, p);
        assert(d == rest * pow(p, k + 1)) by (nonlinear_arith)
            requires
                d == p * q,
                q == rest * pow(p, k),
                pow(p, k + 1) == p * pow(p, k),
        ;
        (rest, k + 1)
    } else {
        assert(d == d * pow(p, 0)) by (nonlinear_arith)
            requires
                pow(p, 0) == 1,
        ;
        (d, 0)
    }
}

/// A number that shares no factor with the prime `p` and divides `x * p^e` divides `x`.
proof fn lemma_cancel_prime_power(d: int, p: int, x: int, e: nat)
    requires
        d >= 1,
        p >= 2,
        is_prime(p as nat),
        d % p != 0,
        x >= 0,
        (x * pow(p, e)) % d == 0,
    ensures
        x % d == 0,
    decreases e,
{
    reveal(pow);
    if e == 0 {
        assert(x * pow(p, e) == x) by (nonlinear_arith)
            requires
                pow(p, e) == 1,
        ;
    } else {
        let y = x * pow(p, (e - 1) as nat);
        lemma_pow_positive(p, (e - 1) as nat);
        assert(x * pow(p, e) == y * p) by (nonlinear_arith)
            requires
                pow(p, e) == p * pow(p, (e - 1) as nat),
                y == x * pow(p, (e - 1) as nat),
        ;
        assert(y >= 0) by (nonlinear_arith)
            requires
                x >= 0,
                pow(p, (e - 1) as nat) > 0,
                y == x * pow(p, (e - 1) as nat),
        ;
        lemma_fundamental_div_mod(y * p, d);
        let m = (y * p) / d;
        assert(m >= 0) by (nonlinear_arith)
            requires
                y * p == d * m,
                y >= 0,
                p >= 2,
                d >= 1,
        ;
        lemma_mod_multiples_basic(y, p);
        assert((d * m) % p == 0) by {
            assert(d * m == y * p);
        }
        lemma_euclid(p as nat, d as nat, m as nat);
        lemma_fundamental_div_mod(m, p);
        let m2 = m / p;
        assert(y == d * m2) by (nonlinear_arith)
            requires
                y * p == d * m,
                m == p * m2,
                p >= 2,
        ;
        lemma_mod_multiples_basic(m2, d);
        assert(y % d == 0) by {
            assert(y == m2 * d) by (nonlinear_arith)
                requires
                    y == d * m2,
            ;
        }
        lemma_cancel_prime_power(d, p, x, (e - 1) as nat);
    }
}

/// With prime keys, every divisor of the number a factorization stands for is one that it
/// builds.
pub proof fn lemma_divisors_are_built(s: Seq<(u64, u64)>, d: int)
    requires
        is_power_list(s),
        prime_keys(s),
        d >= 1,
        value_of(s) % d == 0,
    ensures
        builds_divisor(s, d),
    decreases s.len(),
{
    if s.len() == 0 {
        lemma_builds_divisor_empty(s, d);
        lemma_fundamental_div_mod(1, d);
        assert(d == 1) by (nonlinear_arith)
            requires
                1 == d * (1int / d),
                d >= 1,
        ;
    } else {
        lemma_drop_last(s);
        let t = s.drop_last();
        let p = s.last().0 as int;
        let e = s.last().1 as nat;
        assert(is_prime(s[s.len() - 1].0 as nat));
        assert(keys_above(t, 0));
        lemma_power_product_positive(t, 0);
        let v = value_of(t);
        let (rest, k) = lemma_split_off_prime(d, p);
        lemma_pow_positive(p, k);
        lemma_pow_positive(p, e);
        lemma_fundamental_div_mod(v * pow(p, e), d);
        let m = (v * pow(p, e)) / d;
        assert(k <= e) by {
            if k > e {
                let c = (k - e) as nat;
                lemma_pow_adds(p, e, c);
                assert(v == (rest * pow(p, c)) * m) by (nonlinear_arith)
                    requires
                        v * pow(p, e) == d * m,
                        d == rest * pow(p, k),
                        pow(p, k) == pow(p, e) * pow(p, c),
                        pow(p, e) > 0,
                ;
                reveal(pow);
                assert(pow(p, c) == p * pow(p, (c - 1) as nat));
                assert(v == (rest * pow(p, (c - 1) as nat) * m) * p) by (nonlinear_arith)
                    requires
                        v == (rest * pow(p, c)) * m,
                        pow(p, c) == p * pow(p, (c - 1) as nat),
                ;
                lemma_mod_multiples_basic(rest * pow(p, (c - 1) as nat) * m, p);
                lemma_prime_divides_value(p as nat, t);
                let i = choose|i: int| 0 <= i < t.len() && t[i].0 == p;
                assert(t[i].0 < s.last().0);
            }
        }
        let c = (e - k) as nat;
        lemma_pow_adds(p, k, c);
        assert(v * pow(p, c) == rest * m) by (nonlinear_arith)
            requires
                v * pow(p, e) == d * m,
                d == rest * pow(p, k),
                pow(p, e) == pow(p, k) * pow(p, c),
                pow(p, k) > 0,
        ;
        lemma_mod_multiples_basic(m, rest);
        assert((v * pow(p, c)) % rest == 0) by {
            assert(rest * m == m * rest) by (nonlinear_arith);
        }
        lemma_cancel_prime_power(rest, p, v, c);
        lemma_divisors_are_built(t, rest);
        lemma_builds_divisor_step(s, d);
        assert(k <= s.last().1 && builds_divisor(s.drop_last(), rest) && d == rest * pow(
            s.last().0 as int,
            k,
        ));
    }
}

} // verus!
