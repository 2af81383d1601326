use num::Integer;
use vstd::arithmetic::div_mod::*;
use vstd::arithmetic::power::*;
use vstd::prelude::*;

use crate::powers::{
    add_power, exponent_of, is_power_list, keys_above, lemma_exponent_absent, lemma_exponent_at,
    lemma_exponent_below_power, lemma_exponent_prefix, lemma_power_list_take,
    lemma_power_of_key_bounded, lemma_power_product_first, lemma_power_product_positive,
    lemma_exponent_sum_bounded, lemma_keys_after_update, lemma_room_for_power,
    lemma_power_product_prefix, power_product, value_of,
};
use crate::iter::{lemma_primes_in_sequence, CertIter};
use crate::totient::{lemma_divides_trans, lemma_prime_divisor};
use crate::prime::{
    is_prime, lemma_oracle_at_least_two, lemma_prime_passes_oracle, oracle_prime, Prime,
    MAX_U64_PRIME,
};

verus! {

/// The greatest common divisor, by Euclid's algorithm (`gcd(a, 0) == a`).
pub open spec fn gcd(a: nat, b: nat) -> nat
    decreases b,
{
    if b == 0 {
        a
    } else {
        gcd(b, a % b)
    }
}

/// A common divisor: unless both are zero, the gcd is positive and divides both.
pub proof fn lemma_gcd_divides(a: nat, b: nat)
    requires
        a > 0 || b > 0,
    ensures
        gcd(a, b) > 0,
        a % gcd(a, b) == 0,
        b % gcd(a, b) == 0,
    decreases b,
{
    if b == 0 {
        lemma_mod_self_0(a as int);
    } else {
        lemma_gcd_divides(b, a % b);
        let g = gcd(a, b);
        let q = a / b;
        let r = a % b;
        lemma_fundamental_div_mod(a as int, b as int);
        lemma_fundamental_div_mod(b as int, g as int);
        lemma_fundamental_div_mod(r as int, g as int);
        let u = b / g;
        let v = r / g;
        assert(a == g * (u * q + v)) by (nonlinear_arith)
            requires
                a == b * q + r,
                b == g * u,
                r == g * v,
        ;
        lemma_mod_multiples_basic((u * q + v) as int, g as int);
    }
}

/// Relies on `num::Integer::gcd` for `u64` (Stein's algorithm): the greatest common divisor,
/// with `gcd(0, b) == b` and `gcd(a, 0) == a`.
#[verifier::external_body]
fn gcd_u64(a: u64, b: u64) -> (r: u64)
    ensures
        r == gcd(a as nat, b as nat),
{
    a.gcd(&b)
}

/// Relies on `num::Integer::gcd` for `u128` (Stein's algorithm): the greatest common divisor,
/// with `gcd(0, b) == b` and `gcd(a, 0) == a`.
#[verifier::external_body]
fn gcd_u128(a: u128, b: u128) -> (r: u128)
    ensures
        r == gcd(a as nat, b as nat),
{
    a.gcd(&b)
}

/// A canonical power list whose every key the primality oracle accepts.
pub open spec fn is_factorization(s: Seq<(u64, u64)>) -> bool {
    &&& is_power_list(s)
    &&& forall|i: int| 0 <= i < s.len() ==> oracle_prime(#[trigger] s[i].0 as nat)
}

/// Euler's totient computed from a factorization: the product of `p^(e-1) * (p-1)`.
pub open spec fn totient_of(s: Seq<(u64, u64)>) -> int
    decreases s.len(),
{
    if s.len() == 0 {
        1
    } else {
        totient_of(s.drop_last()) * (pow(s.last().0 as int, (s.last().1 - 1) as nat) * (
        s.last().0 - 1))
    }
}

/// The Möbius function computed from a factorization: zero when some exponent is at least
/// two, else `-1` to the number of distinct primes.
pub open spec fn mobius_of(s: Seq<(u64, u64)>) -> int {
    if exists|i: int| 0 <= i < s.len() && #[trigger] s[i].1 >= 2 {
        0
    } else if s.len() % 2 == 0 {
        1
    } else {
        -1
    }
}

/// Keys of a factorization are at least two.
pub proof fn lemma_factorization_keys(s: Seq<(u64, u64)>)
    requires
        is_factorization(s),
    ensures
        keys_above(s, 1),
        keys_above(s, 0),
{
    assert forall|i: int| 0 <= i < s.len() implies #[trigger] s[i].0 > 1 by {
        lemma_oracle_at_least_two(s[i].0 as nat);
    }
}

/// The totient of a factorization lies between zero and the number it stands for.
pub proof fn lemma_totient_bounded(s: Seq<(u64, u64)>)
    requires
        is_power_list(s),
        keys_above(s, 0),
    ensures
        0 <= totient_of(s) <= value_of(s),
    decreases s.len(),
{
    if s.len() > 0 {
        let t = s.drop_last();
        lemma_power_list_take(s, s.len() - 1);
        assert(t =~= s.take(s.len() - 1));
        lemma_totient_bounded(t);
        let p = s.last().0 as int;
        let e = s.last().1 as nat;
        assert(s.last() == s[s.len() - 1]);
        lemma_pow_positive(p, (e - 1) as nat);
        lemma_pow_adds(p, (e - 1) as nat, 1);
        lemma_pow1(p);
        assert((e - 1) as nat + 1 == e);
        let q = pow(p, (e - 1) as nat);
        assert(0 <= totient_of(t) * (q * (p - 1)) <= value_of(t) * (q * p)) by (nonlinear_arith)
            requires
                0 <= totient_of(t) <= value_of(t),
                q > 0,
                p >= 1,
        ;
    }
}

/// The product of `p^k` over the entries `(p, e)` of `s` and the exponents `k` of `ks`.
pub open spec fn divisor_of_exponents(s: Seq<(u64, u64)>, ks: Seq<nat>) -> int
    decreases s.len(),
{
    if s.len() == 0 {
        1
    } else {
        divisor_of_exponents(s.drop_last(), ks.drop_last()) * pow(s.last().0 as int, ks.last())
    }
}

/// `ks` chooses for each entry `(p, e)` of `s` an exponent `k` with `0 <= k <= e`.
pub open spec fn exponents_within(s: Seq<(u64, u64)>, ks: Seq<nat>) -> bool {
    ks.len() == s.len() && forall|i: int| 0 <= i < s.len() ==> #[trigger] ks[i] <= s[i].1
}

/// `x` is a divisor that the factorization builds: a product that takes, for each entry
/// `(p, e)`, a power `p^k` with `0 <= k <= e`.
pub open spec fn builds_divisor(s: Seq<(u64, u64)>, x: int) -> bool {
    exists|ks: Seq<nat>| exponents_within(s, ks) && divisor_of_exponents(s, ks) == x
}

/// Only 1 is built from no entries.
pub proof fn lemma_builds_divisor_empty(s: Seq<(u64, u64)>, x: int)
    requires
        s.len() == 0,
    ensures
        builds_divisor(s, x) <==> x == 1,
{
    if x == 1 {
        let ks = Seq::<nat>::empty();
        assert(exponents_within(s, ks));
    }
}

/// The divisors built from `s` are those built from all but its last entry `(p, e)`, times
/// `p^k` with `0 <= k <= e`.
pub proof fn lemma_builds_divisor_step(s: Seq<(u64, u64)>, x: int)
    requires
        s.len() > 0,
    ensures
        builds_divisor(s, x) <==> exists|d: int, k: nat|
            k <= s.last().1 && builds_divisor(s.drop_last(), d) && x == d * pow(
                s.last().0 as int,
                k,
            ),
{
    let t = s.drop_last();
    if builds_divisor(s, x) {
        let ks = choose|ks: Seq<nat>| exponents_within(s, ks) && divisor_of_exponents(s, ks) == x;
        let ks0 = ks.drop_last();
        assert(exponents_within(t, ks0)) by {
            assert forall|i: int| 0 <= i < t.len() implies #[trigger] ks0[i] <= t[i].1 by {
                assert(ks[i] <= s[i].1);
            }
        }
        let d = divisor_of_exponents(t, ks0);
        assert(ks[ks.len() - 1] <= s[s.len() - 1].1);
        assert(ks.last() <= s.last().1 && builds_divisor(t, d) && x == d * pow(
            s.last().0 as int,
            ks.last(),
        ));
    }
    if exists|d: int, k: nat|
        k <= s.last().1 && builds_divisor(t, d) && x == d * pow(s.last().0 as int, k) {
        let (d, k) = choose|d: int, k: nat|
            k <= s.last().1 && builds_divisor(t, d) && x == d * pow(s.last().0 as int, k);
        let ks0 = choose|ks: Seq<nat>| exponents_within(t, ks) && divisor_of_exponents(t, ks) == d;
        let ks = ks0.push(k);
        assert(ks.drop_last() =~= ks0);
        assert(exponents_within(s, ks)) by {
            assert forall|i: int| 0 <= i < s.len() implies #[trigger] ks[i] <= s[i].1 by {
                if i < t.len() {
                    assert(ks[i] == ks0[i]);
                    assert(ks0[i] <= t[i].1);
                }
            }
        }
        assert(divisor_of_exponents(s, ks) == x);
    }
}

/// `v` holds the value `x`.
pub open spec fn holds_value(v: Seq<u64>, x: int) -> bool {
    exists|a: int| 0 <= a < v.len() && v[a] == x
}

/// `x` is `ds[j2] * p^k` for some `j2 < j` and `k <= e`.
spec fn scaled_from(ds: Seq<u64>, j: int, e: nat, p: int, x: int) -> bool {
    exists|j2: int, k: nat| 0 <= j2 < j && k <= e && x == ds[j2] * pow(p, k)
}

/// The number of divisors that the factorization builds, counted with repetition: the
/// product of `e + 1` over the entries.
pub open spec fn divisor_count(s: Seq<(u64, u64)>) -> nat
    decreases s.len(),
{
    if s.len() == 0 {
        1
    } else {
        divisor_count(s.drop_last()) * (s.last().1 + 1) as nat
    }
}

/// A built divisor divides the number that the factorization stands for.
pub proof fn lemma_built_divisor_divides(s: Seq<(u64, u64)>, x: int)
    requires
        keys_above(s, 0),
        builds_divisor(s, x),
    ensures
        1 <= x <= value_of(s),
        value_of(s) % x == 0,
    decreases s.len(),
{
    if s.len() == 0 {
        lemma_builds_divisor_empty(s, x);
        lemma_mod_self_0(1);
    } else {
        let t = s.drop_last();
        let p = s.last().0 as int;
        let e = s.last().1 as nat;
        lemma_builds_divisor_step(s, x);
        let (d, k) = choose|d: int, k: nat|
            k <= s.last().1 && builds_divisor(s.drop_last(), d) && x == d * pow(s.last().0 as int, k);
        assert(keys_above(t, 0)) by {
            assert forall|i: int| 0 <= i < t.len() implies #[trigger] t[i].0 > 0 by {
                assert(t[i] == s[i]);
            }
        }
        assert(s.last() == s[s.len() - 1]);
        lemma_built_divisor_divides(t, d);
        let v = value_of(t);
        lemma_fundamental_div_mod(v, d);
        let q = v / d;
        lemma_pow_adds(p, k, (e - k) as nat);
        lemma_pow_positive(p, k);
        lemma_pow_positive(p, (e - k) as nat);
        let a = pow(p, k);
        let b = pow(p, (e - k) as nat);
        assert(value_of(s) == v * pow(p, e));
        assert(value_of(s) == x * (q * b)) by (nonlinear_arith)
            requires
                value_of(s) == v * (a * b),
                v == d * q,
                x == d * a,
        ;
        assert(1 <= x <= value_of(s)) by (nonlinear_arith)
            requires
                x == d * a,
                value_of(s) == v * (a * b),
                1 <= d <= v,
                a >= 1,
                b >= 1,
        ;
        lemma_mod_multiples_basic(q * b, x);
        assert(x * (q * b) == (q * b) * x) by (nonlinear_arith);
    }
}

/// Represents a collection of powers of prime factors.
#[derive(Clone, Debug, PartialEq, Eq, PartialOrd, Ord)]
pub struct PrimeFactorization {
    facs: Vec<(u64, u64)>,
}

impl View for PrimeFactorization {
    type V = Seq<(u64, u64)>;

    /// The `(prime, exponent)` entries in ascending order of the prime.
    closed spec fn view(&self) -> Seq<(u64, u64)> {
        self.facs@
    }
}

impl PrimeFactorization {
    /// The entries are a factorization.
    pub open spec fn wf(&self) -> bool {
        is_factorization(self@)
    }

    /// Creates the empty factorization, which stands for 1.
    pub fn new() -> (r: Self)
        ensures
            r.wf(),
            r@ == Seq::<(u64, u64)>::empty(),
    {
        PrimeFactorization { facs: Vec::new() }
    }

    /// Adds `power` to the exponent of `prime`.
    pub fn add(&mut self, prime: Prime, power: u64)
        requires
            old(self).wf(),
            exponent_of(old(self)@, prime@) + power <= u64::MAX,
        ensures
            final(self).wf(),
            forall|q: u64|
                #[trigger] exponent_of(final(self)@, q) == exponent_of(old(self)@, q) + (if q
                    == prime@ {
                    power as nat
                } else {
                    0nat
                }),
            value_of(final(self)@) == value_of(old(self)@) * pow(prime@ as int, power as nat),
    {
        let p = prime.get();
        if power > 0 {
            let ghost s = self.facs@;
            add_power(&mut self.facs, p, power);
            proof {
                let t = self.facs@;
                lemma_keys_after_update(s, t, p, power as nat);
                assert forall|i: int| 0 <= i < t.len() implies oracle_prime(#[trigger] t[i].0 as nat) by {
                    if t[i].0 != p {
                        let j = choose|j: int| 0 <= j < s.len() && s[j].0 == t[i].0;
                    }
                }
            }
        } else {
            proof {
                assert(pow(p as int, 0) == 1) by {
                    reveal(pow);
                }
            }
        }
    }

    /// Adds every power of `pf`, each multiplied by `fac`, to this factorization.
    pub fn add_pf(&mut self, pf: &Self, fac: u64)
        requires
            old(self).wf(),
            pf.wf(),
            forall|q: u64| #[trigger] exponent_of(old(self)@, q) + exponent_of(pf@, q) * fac <= u64::MAX,
        ensures
            final(self).wf(),
            forall|q: u64|
                #[trigger] exponent_of(final(self)@, q) == exponent_of(old(self)@, q) + exponent_of(
                    pf@,
                    q,
                ) * fac,
            value_of(final(self)@) == value_of(old(self)@) * pow(value_of(pf@), fac as nat),
    {
        let ghost s0 = self@;
        let ghost t = pf@;
        let mut i: usize = 0;
        proof {
            assert(t.take(0) =~= Seq::<(u64, u64)>::empty());
            assert forall|q: u64| exponent_of(t.take(0), q) == 0 by {
                lemma_exponent_absent(t.take(0), q);
            }
            assert(value_of(t.take(0)) == 1);
            lemma1_pow(fac as nat);
            assert(value_of(s0) * 1 == value_of(s0));
        }
        while i < pf.facs.len()
            invariant
                self.wf(),
                pf.wf(),
                t == pf@,
                i <= t.len(),
                forall|q: u64| #[trigger] exponent_of(s0, q) + exponent_of(t, q) * fac <= u64::MAX,
                forall|q: u64|
                    #[trigger] exponent_of(self@, q) == exponent_of(s0, q) + exponent_of(
                        t.take(i as int),
                        q,
                    ) * fac,
                value_of(self@) == value_of(s0) * pow(value_of(t.take(i as int)), fac as nat),
            decreases t.len() - i,
        {
            let (k, np) = pf.facs[i];
            proof {
                lemma_exponent_at(t, i as int);
                lemma_exponent_prefix(t, i as int, k);
                assert(exponent_of(t.take(i as int), k) == 0);
                assert(exponent_of(t.take(i as int), k) * fac == 0) by (nonlinear_arith)
                    requires
                        exponent_of(t.take(i as int), k) == 0,
                ;
                assert(exponent_of(self@, k) == exponent_of(s0, k));
                assert(exponent_of(s0, k) + exponent_of(t, k) * fac <= u64::MAX);
                assert(np * fac <= u64::MAX) by (nonlinear_arith)
                    requires
                        exponent_of(s0, k) + np * fac <= u64::MAX,
                ;
            }
            let p = Prime::from_certified(k);
            let ghost before = self@;
            self.add(p, np * fac);
            proof {
                assert forall|q: u64| #[trigger]
                    exponent_of(self@, q) == exponent_of(s0, q) + exponent_of(
                        t.take(i + 1),
                        q,
                    ) * fac by {
                    lemma_exponent_prefix(t, i as int, q);
                    assert(exponent_of(before, q) == exponent_of(s0, q) + exponent_of(t.take(i as int), q) * fac);
                    if q == k {
                        assert((exponent_of(t.take(i as int), q) + np) * fac == exponent_of(t.take(i as int), q) * fac + np * fac) by (nonlinear_arith);
                    }
                }
                let a = value_of(t.take(i as int));
                assert(t.take(i + 1).drop_last() =~= t.take(i as int));
                assert(value_of(t.take(i + 1)) == a * pow(k as int, np as nat));
                lemma_pow_distributes(a, pow(k as int, np as nat), fac as nat);
                lemma_pow_multiplies(k as int, np as nat, fac as nat);
                assert(value_of(self@) == value_of(before) * pow(k as int, (np * fac) as nat));
                assert(value_of(self@) == value_of(s0) * pow(a, fac as nat) * pow(k as int, (np * fac) as nat));
                assert(value_of(s0) * pow(a, fac as nat) * pow(k as int, (np * fac) as nat) == value_of(s0) * (pow(a, fac as nat) * pow(k as int, (np * fac) as nat))) by (nonlinear_arith);
            }
            i = i + 1;
        }
        proof {
            assert(t.take(i as int) =~= t);
        }
    }

    /// The `(prime, exponent)` entries in ascending order of the prime.
    pub fn iter(&self) -> (r: Vec<(Prime, u64)>)
        requires
            self.wf(),
        ensures
            r.len() == self@.len(),
            forall|i: int| 0 <= i < r.len() ==> (#[trigger] r[i]).0@ == self@[i].0 && r[i].1 == self@[i].1,
    {
        let mut r: Vec<(Prime, u64)> = Vec::new();
        let mut i: usize = 0;
        while i < self.facs.len()
            invariant
                self.wf(),
                i <= self@.len(),
                r.len() == i,
                forall|j: int| 0 <= j < i ==> (#[trigger] r[j]).0@ == self@[j].0 && r[j].1 == self@[j].1,
            decreases self@.len() - i,
        {
            let (k, e) = self.facs[i];
            r.push((Prime::from_certified(k), e));
            i = i + 1;
        }
        r
    }

    /// Multiplies out the powers, giving the number they stand for.
    pub fn product(&self) -> (r: u64)
        requires
            self.wf(),
            value_of(self@) <= u64::MAX,
        ensures
            r == value_of(self@),
    {
        let ghost s = self@;
        proof {
            lemma_factorization_keys(s);
            assert(s.take(0) =~= Seq::<(u64, u64)>::empty());
        }
        let mut res: u64 = 1;
        let mut i: usize = 0;
        while i < self.facs.len()
            invariant
                s == self@,
                self.wf(),
                keys_above(s, 1),
                value_of(s) <= u64::MAX,
                i <= s.len(),
                res == value_of(s.take(i as int)),
            decreases s.len() - i,
        {
            let (p, e) = self.facs[i];
            proof {
                lemma_power_product_prefix(s, i + 1, 0);
                lemma_power_product_prefix(s, i as int, 0);
                assert(s.take(i + 1).drop_last() =~= s.take(i as int));
                assert(keys_above(s, 0));
                assert(s[i as int].0 > 1);
                assert(pow(p as int, 0) == 1) by {
                    reveal(pow);
                }
            }
            let mut j: u64 = 0;
            while j < e
                invariant
                    j <= e,
                    p >= 2,
                    value_of(s.take(i as int)) * pow(p as int, e as nat) <= u64::MAX,
                    res == value_of(s.take(i as int)) * pow(p as int, j as nat),
                    value_of(s.take(i as int)) >= 1,
                decreases e - j,
            {
                proof {
                    lemma_pow_adds(p as int, j as nat, 1);
                    lemma_pow1(p as int);
                    lemma_pow_increases(p as nat, (j + 1) as nat, e as nat);
                    let a = value_of(s.take(i as int));
                    assert(a * pow(p as int, (j + 1) as nat) <= a * pow(p as int, e as nat)) by (nonlinear_arith)
                        requires
                            a >= 1,
                            pow(p as int, (j + 1) as nat) <= pow(p as int, e as nat),
                    ;
                    assert(a * pow(p as int, j as nat) * p == a * pow(p as int, (j + 1) as nat)) by (nonlinear_arith)
                        requires
                            pow(p as int, (j + 1) as nat) == pow(p as int, j as nat) * p,
                    ;
                }
                res = res * p;
                j = j + 1;
            }
            i = i + 1;
        }
        proof {
            assert(s.take(i as int) =~= s);
        }
        res
    }

    /// Euler's totient function of the number this factorization stands for.
    pub fn euler_totient(&self) -> (r: u64)
        requires
            self.wf(),
            value_of(self@) <= u64::MAX,
        ensures
            r == totient_of(self@),
    {
        let ghost s = self@;
        proof {
            lemma_factorization_keys(s);
            assert(s.take(0) =~= Seq::<(u64, u64)>::empty());
        }
        let mut res: u64 = 1;
        let mut i: usize = 0;
        while i < self.facs.len()
            invariant
                s == self@,
                self.wf(),
                keys_above(s, 1),
                value_of(s) <= u64::MAX,
                i <= s.len(),
                res == totient_of(s.take(i as int)),
            decreases s.len() - i,
        {
            let (p, e) = self.facs[i];
            let ghost a = value_of(s.take(i as int));
            let ghost t = totient_of(s.take(i as int));
            proof {
                lemma_power_product_prefix(s, i + 1, 0);
                lemma_power_product_prefix(s, i as int, 0);
                lemma_power_list_take(s, i as int);
                lemma_totient_bounded(s.take(i as int));
                assert(s.take(i + 1).drop_last() =~= s.take(i as int));
                assert(keys_above(s, 0));
                assert(s[i as int].0 > 1);
                assert(e > 0);
                lemma_pow_increases(p as nat, 1, e as nat);
                lemma_pow1(p as int);
                assert(t * (p - 1) <= a * pow(p as int, e as nat)) by (nonlinear_arith)
                    requires
                        0 <= t <= a,
                        p - 1 <= pow(p as int, e as nat),
                        p >= 2,
                ;
                assert(pow(p as int, 0) == 1) by {
                    reveal(pow);
                }
            }
            res = res * (p - 1);
            let mut j: u64 = 1;
            while j < e
                invariant
                    1 <= j <= e,
                    p >= 2,
                    a * pow(p as int, e as nat) <= u64::MAX,
                    res == t * (p - 1) * pow(p as int, (j - 1) as nat),
                    0 <= t <= a,
                decreases e - j,
            {
                proof {
                    lemma_pow_adds(p as int, (j - 1) as nat, 1);
                    lemma_pow1(p as int);
                    lemma_pow_increases(p as nat, (j + 1) as nat, e as nat);
                    lemma_pow_adds(p as int, (j - 1) as nat, 2);
                    assert(pow(p as int, 2) == p * p) by {
                        reveal(pow);
                    }
                    let q = pow(p as int, (j - 1) as nat);
                    lemma_pow_positive(p as int, (j - 1) as nat);
                    assert(t * (p - 1) * q * p <= a * pow(p as int, e as nat)) by (nonlinear_arith)
                        requires
                            0 <= t <= a,
                            q > 0,
                            p >= 2,
                            pow(p as int, (j + 1) as nat) == q * (p * p),
                            pow(p as int, (j + 1) as nat) <= pow(p as int, e as nat),
                    ;
                    assert(t * (p - 1) * q * p == t * (p - 1) * pow(p as int, j as nat)) by (nonlinear_arith)
                        requires
                            pow(p as int, j as nat) == q * p,
                    ;
                }
                res = res * p;
                j = j + 1;
            }
            proof {
                assert(res == t * (pow(p as int, (e - 1) as nat) * (p - 1))) by (nonlinear_arith)
                    requires
                        res == t * (p - 1) * pow(p as int, (e - 1) as nat),
                ;
            }
            i = i + 1;
        }
        proof {
            assert(s.take(i as int) =~= s);
        }
        res
    }

    /// The Möbius function of the number this factorization stands for.
    pub fn mobius(&self) -> (r: i64)
        requires
            self.wf(),
        ensures
            r == mobius_of(self@),
    {
        let ghost s = self@;
        proof {
            assert(s.take(0) =~= Seq::<(u64, u64)>::empty());
        }
        let mut res: i64 = 1;
        let mut i: usize = 0;
        while i < self.facs.len()
            invariant
                s == self@,
                i <= s.len(),
                res == mobius_of(s.take(i as int)),
            decreases s.len() - i,
        {
            let (_, pow) = self.facs[i];
            let ghost a = s.take(i as int);
            let ghost b = s.take(i + 1);
            proof {
                assert(b.drop_last() =~= a);
                assert(b[i as int] == s[i as int]);
                if exists|j: int| 0 <= j < a.len() && #[trigger] a[j].1 >= 2 {
                    let j = choose|j: int| 0 <= j < a.len() && #[trigger] a[j].1 >= 2;
                    assert(b[j] == a[j]);
                }
                if pow > 1 {
                    assert(b[i as int].1 >= 2);
                } else {
                    assert forall|j: int| 0 <= j < b.len() && #[trigger] b[j].1 >= 2 implies a[j].1 >= 2 by {
                        assert(b[j] == a[j]);
                    }
                }
            }
            if pow > 1 {
                res = 0;
            } else {
                res = -res;
            }
            i = i + 1;
        }
        proof {
            assert(s.take(i as int) =~= s);
        }
        res
    }

    /// Every divisor that the factorization builds, each as often as it is built: the
    /// product of `p^k` with `0 <= k <= e`, for every choice of exponents.
    pub fn divisors(&self) -> (r: Vec<u64>)
        requires
            self.wf(),
            value_of(self@) <= u64::MAX,
        ensures
            r.len() == divisor_count(self@),
            forall|x: int| builds_divisor(self@, x) <==> holds_value(r@, x),
    {
        let ghost s = self@;
        proof {
            lemma_factorization_keys(s);
            assert(s.take(0) =~= Seq::<(u64, u64)>::empty());
        }
        let mut ds: Vec<u64> = Vec::new();
        ds.push(1);
        proof {
            assert(ds@[0] == 1);
            assert forall|x: int| builds_divisor(s.take(0), x) <==> holds_value(ds@, x) by {
                lemma_builds_divisor_empty(s.take(0), x);
                if x == 1 {
                    assert(ds[0] == 1);
                }
                if holds_value(ds@, x) {
                    let a = choose|a: int| 0 <= a < ds.len() && ds[a] == x;
                    assert(a == 0);
                }
            }
        }
        let mut i: usize = 0;
        while i < self.facs.len()
            invariant
                s == self@,
                self.wf(),
                keys_above(s, 0),
                value_of(s) <= u64::MAX,
                i <= s.len(),
                ds.len() == divisor_count(s.take(i as int)),
                forall|x: int| builds_divisor(s.take(i as int), x) <==> holds_value(ds@, x),
            decreases s.len() - i,
        {
            let (p, e) = self.facs[i];
            let ghost t = s.take(i as int);
            let ghost u = s.take(i + 1);
            proof {
                assert(u.drop_last() =~= t);
                assert(u.last() == s[i as int]);
                lemma_power_list_take(s, i as int);
                lemma_power_product_prefix(s, i + 1, 0);
                assert(s[i as int].0 > 0);
            }
            let mut next: Vec<u64> = Vec::new();
            let mut j: usize = 0;
            while j < ds.len()
                invariant
                    j <= ds.len(),
                    p > 0,
                    keys_above(t, 0),
                    value_of(u) == value_of(t) * pow(p as int, e as nat),
                    value_of(u) <= u64::MAX,
                    next.len() == j * (e + 1),
                    forall|x: int| builds_divisor(t, x) <==> holds_value(ds@, x),
                    forall|x: int| #[trigger] holds_value(next@, x) <==> scaled_from(ds@, j as int, e as nat, p as int, x),
                decreases ds.len() - j,
            {
                let d = ds[j];
                let mut m = d;
                let mut k: u64 = 0;
                proof {
                    assert(holds_value(ds@, d as int));
                    assert(builds_divisor(t, d as int));
                    lemma_built_divisor_divides(t, d as int);
                    assert(pow(p as int, 0) == 1) by {
                        reveal(pow);
                    }
                }
                let ghost n0 = next@;
                loop
                    invariant_except_break
                        next.len() == n0.len() + k,
                        forall|a: int| 0 <= a < k ==> #[trigger] next[n0.len() + a] == d * pow(p as int, a as nat),
                    invariant
                        k <= e,
                        p > 0,
                        1 <= d <= value_of(t),
                        value_of(u) == value_of(t) * pow(p as int, e as nat),
                        value_of(u) <= u64::MAX,
                        m == d * pow(p as int, k as nat),
                        forall|a: int| 0 <= a < n0.len() ==> next[a] == n0[a],
                    ensures
                        next.len() == n0.len() + e + 1,
                        forall|a: int| 0 <= a < n0.len() ==> next[a] == n0[a],
                        forall|a: int| 0 <= a <= e ==> #[trigger] next[n0.len() + a] == d * pow(p as int, a as nat),
                    decreases e - k,
                {
                    let ghost before = next@;
                    next.push(m);
                    if k == e {
                        proof {
                            assert forall|a: int| 0 <= a <= e implies #[trigger] next[n0.len() + a] == d * pow(p as int, a as nat) by {
                                if a < k {
                                    assert(next[n0.len() + a] == before[n0.len() + a]);
                                }
                            }
                        }
                        break ;
                    }
                    proof {
                        lemma_pow_adds(p as int, k as nat, 1);
                        lemma_pow1(p as int);
                        lemma_pow_increases(p as nat, (k + 1) as nat, e as nat);
                        lemma_pow_positive(p as int, (k + 1) as nat);
                        let a = pow(p as int, (k + 1) as nat);
                        assert(d * a <= value_of(t) * pow(p as int, e as nat)) by (nonlinear_arith)
                            requires
                                1 <= d <= value_of(t),
                                1 <= a <= pow(p as int, e as nat),
                        ;
                        assert(m * p == d * a) by (nonlinear_arith)
                            requires
                                m == d * pow(p as int, k as nat),
                                a == pow(p as int, k as nat) * p,
                        ;
                    }
                    m = m * p;
                    k = k + 1;
                }
                proof {
                    assert((j + 1) * (e + 1) == j * (e + 1) + e + 1) by (nonlinear_arith);
                    assert forall|x: int| #[trigger] holds_value(next@, x) <==> scaled_from(ds@, j + 1, e as nat, p as int, x) by {
                        if holds_value(next@, x) {
                            let a = choose|a: int| 0 <= a < next.len() && next[a] == x;
                            if a < n0.len() {
                                assert(next[a] == n0[a]);
                                assert(holds_value(n0, x));
                            } else {
                                let k2 = (a - n0.len()) as nat;
                                assert(next[n0.len() + k2 as int] == d * pow(p as int, k2));
                                assert(0 <= j < j + 1 && k2 <= e && x == ds[j as int] * pow(p as int, k2));
                            }
                        }
                        if scaled_from(ds@, j + 1, e as nat, p as int, x) {
                            let (j2, k2) = choose|j2: int, k2: nat| 0 <= j2 < j + 1 && k2 <= e && x == ds[j2] * pow(p as int, k2);
                            if j2 < j {
                                assert(scaled_from(ds@, j as int, e as nat, p as int, x));
                                assert(holds_value(n0, x));
                                let a = choose|a: int| 0 <= a < n0.len() && n0[a] == x;
                                assert(next[a] == x);
                            } else {
                                assert(next[n0.len() + k2 as int] == x);
                            }
                        }
                    }
                }
                j = j + 1;
            }
            proof {
                assert(divisor_count(u) == divisor_count(t) * (e + 1) as nat);
                assert forall|x: int| builds_divisor(u, x) <==> holds_value(next@, x) by {
                    lemma_builds_divisor_step(u, x);
                    if builds_divisor(u, x) {
                        let (d, k) = choose|d: int, k: nat|
                            k <= u.last().1 && builds_divisor(u.drop_last(), d) && x == d * pow(u.last().0 as int, k);
                        assert(holds_value(ds@, d));
                        let j2 = choose|j2: int| 0 <= j2 < ds.len() && ds[j2] == d;
                        assert(0 <= j2 < ds.len() && k <= e && x == ds[j2] * pow(p as int, k));
                        assert(scaled_from(ds@, ds.len() as int, e as nat, p as int, x));
                    }
                    if holds_value(next@, x) {
                        let (j2, k) = choose|j2: int, k: nat| 0 <= j2 < ds.len() && k <= e && x == ds[j2] * pow(p as int, k);
                        let d = ds[j2] as int;
                        assert(holds_value(ds@, d));
                        assert(builds_divisor(t, d));
                        assert(k <= u.last().1 && builds_divisor(u.drop_last(), d) && x == d * pow(u.last().0 as int, k));
                    }
                }
            }
            ds = next;
            i = i + 1;
        }
        proof {
            assert(s.take(i as int) =~= s);
        }
        ds
    }

    /// Calls `f` once on each divisor that [`Self::divisors`] lists, including 1 and the
    /// number itself, in no particular order.
    pub fn for_all_divisors<F: FnMut(u64)>(&self, f: F)
        requires
            self.wf(),
            value_of(self@) <= u64::MAX,
            forall|g: F, d: u64| #[trigger] call_requires(g, (d,)),
    {
        let ds = self.divisors();
        let mut f = f;
        let mut i: usize = 0;
        while i < ds.len()
            invariant
                i <= ds.len(),
                forall|g: F, d: u64| #[trigger] call_requires(g, (d,)),
            decreases ds.len() - i,
        {
            f(ds[i]);
            i = i + 1;
        }
    }
}


/// The exponent that recording `n^np` adds at `q`: among the primes when `as_prime` holds,
/// else among the pending values.
pub open spec fn recorded(n: nat, np: nat, q: u64, as_prime: bool) -> nat {
    if q as nat == n && oracle_prime(n) == as_prime {
        np
    } else {
        0
    }
}

/// The rho sequence for modulus `n` and polynomial `x^2 + r`: `x_0 = 2`,
/// `x_(k+1) = (x_k^2 + r) mod n`.
pub open spec fn rho_x(n: nat, r: nat, k: nat) -> nat
    decreases k,
{
    if k == 0 {
        2
    } else {
        ((rho_x(n, r, (k - 1) as nat) * rho_x(n, r, (k - 1) as nat) + r) % n) as nat
    }
}

/// The gcd that step `k` of a rho attempt computes, from the hare `x_(2k)` and the tortoise
/// `x_k`.
pub open spec fn rho_gcd(n: nat, r: nat, k: nat) -> nat {
    gcd(n, (rho_x(n, r, 2 * k) + n - rho_x(n, r, k)) as nat)
}

/// The first gcd above 1 among steps `k..=n`, or `n` when there is none.
pub open spec fn rho_factor_from(n: nat, r: nat, k: nat) -> nat
    decreases n + 1 - k,
{
    if k > n {
        n
    } else if rho_gcd(n, r, k) > 1 {
        rho_gcd(n, r, k)
    } else {
        rho_factor_from(n, r, k + 1)
    }
}

/// What a rho attempt on `n` with polynomial `x^2 + r` finds: the gcd of the first step that
/// gives one above 1 (`n` itself when the attempt fails).
pub open spec fn rho_factor(n: nat, r: nat) -> nat {
    rho_factor_from(n, r, 1)
}

/// The exponent that a rho attempt on `n^np` records at `q`: the factor found and its
/// cofactor when the factor is proper, else `n` itself.
pub open spec fn rho_recorded(n: nat, np: nat, r: nat, q: u64, as_prime: bool) -> nat {
    let g = rho_factor(n, r);
    if 1 < g < n {
        recorded(g, np, q, as_prime) + recorded(n / g, np, q, as_prime)
    } else {
        recorded(n, np, q, as_prime)
    }
}

/// Work in progress on a factorization: composite values still to split, each with its
/// multiplicity, and the prime powers found so far.
struct IncFac {
    comps: Vec<(u64, u64)>,
    primes: PrimeFactorization,
}

impl IncFac {
    /// Every pending value is composite to the oracle; the primes form a factorization.
    spec fn wf(&self) -> bool {
        &&& is_power_list(self.comps@)
        &&& forall|i: int|
            0 <= i < self.comps@.len() ==> #[trigger] self.comps@[i].0 >= 2 && !oracle_prime(
                self.comps@[i].0 as nat,
            )
        &&& self.primes.wf()
    }

    /// The product of what is pending.
    spec fn pending(&self) -> int {
        value_of(self.comps@)
    }

    /// The number that the pending values and the primes stand for together.
    spec fn value(&self) -> int {
        value_of(self.comps@) * value_of(self.primes@)
    }

    proof fn lemma_positive(&self)
        requires
            self.wf(),
        ensures
            self.pending() >= 1,
            value_of(self.primes@) >= 1,
            keys_above(self.comps@, 1),
            keys_above(self.primes@, 1),
            self.value() >= 1,
    {
        lemma_factorization_keys(self.primes@);
        lemma_power_product_positive(self.comps@, 0);
        lemma_power_product_positive(self.primes@, 0);
        let a = value_of(self.comps@);
        let b = value_of(self.primes@);
        assert(a * b >= 1) by (nonlinear_arith)
            requires
                a >= 1,
                b >= 1,
        ;
    }

    fn new() -> (r: Self)
        ensures
            r.wf(),
            r.value() == 1,
    {
        IncFac { comps: Vec::new(), primes: PrimeFactorization::new() }
    }

    /// Records `n^np`: as a prime power when the oracle accepts `n`, else as pending.
    fn add(&mut self, n: u64, np: u64)
        requires
            old(self).wf(),
            n >= 2,
            np > 0,
            old(self).value() * pow(n as int, np as nat) <= u64::MAX,
        ensures
            final(self).wf(),
            final(self).value() == old(self).value() * pow(n as int, np as nat),
            final(self).pending() == if oracle_prime(n as nat) {
                old(self).pending()
            } else {
                old(self).pending() * pow(n as int, np as nat)
            },
            forall|q: u64|
                #[trigger] exponent_of(final(self).primes@, q) == exponent_of(old(self).primes@, q)
                    + recorded(n as nat, np as nat, q, true),
            forall|q: u64|
                #[trigger] exponent_of(final(self).comps@, q) == exponent_of(old(self).comps@, q)
                    + recorded(n as nat, np as nat, q, false),
    {
        proof {
            self.lemma_positive();
        }
        let ghost c0 = self.comps@;
        let ghost vc = value_of(self.comps@);
        let ghost vp = value_of(self.primes@);
        match Prime::new(n) {
            Some(p) => {
                proof {
                    lemma_room_for_power(self.primes@, n, np, vc);
                    assert(vc * vp * pow(n as int, np as nat) == vc * (vp * pow(n as int, np as nat))) by (nonlinear_arith);
                }
                self.primes.add(p, np);
                proof {
                    assert(vc * (vp * pow(n as int, np as nat)) == vc * vp * pow(n as int, np as nat)) by (nonlinear_arith);
                }
            },
            None => {
                proof {
                    lemma_room_for_power(self.comps@, n, np, vp);
                    assert(vp * vc * pow(n as int, np as nat) == vc * vp * pow(n as int, np as nat)) by (nonlinear_arith);
                }
                add_power(&mut self.comps, n, np);
                proof {
                    let t = self.comps@;
                    lemma_keys_after_update(c0, t, n, np as nat);
                    assert forall|i: int| 0 <= i < t.len() implies #[trigger] t[i].0 >= 2 && !oracle_prime(t[i].0 as nat) by {
                        if t[i].0 != n {
                            let j = choose|j: int| 0 <= j < c0.len() && c0[j].0 == t[i].0;
                        }
                    }
                    assert(vc * pow(n as int, np as nat) * vp == vc * vp * pow(n as int, np as nat)) by (nonlinear_arith);
                }
            },
        }
    }

    fn done(&self) -> (r: bool)
        ensures
            r == (self.comps@.len() == 0),
    {
        self.comps.len() == 0
    }

    fn take(self) -> (r: PrimeFactorization)
        requires
            self.wf(),
            self.comps@.len() == 0,
        ensures
            r.wf(),
            value_of(r@) == self.value(),
    {
        self.primes
    }

    /// Removes one pending value and its multiplicity.
    fn take_composite(&mut self) -> (r: Option<(u64, u64)>)
        requires
            old(self).wf(),
        ensures
            final(self).wf(),
            final(self).primes@ == old(self).primes@,
            r.is_none() <==> old(self).comps@.len() == 0,
            r matches Some(e) ==> e == old(self).comps@[0] && final(self).comps@ == old(self).comps@.subrange(
                1,
                old(self).comps@.len() as int,
            ),
            match r {
                None => old(self).comps@.len() == 0 && final(self).value() == old(self).value(),
                Some((m, np)) => {
                    &&& m >= 4
                    &&& !oracle_prime(m as nat)
                    &&& np > 0
                    &&& old(self).value() == final(self).value() * pow(m as int, np as nat)
                    &&& old(self).pending() == final(self).pending() * pow(m as int, np as nat)
                },
            },
    {
        if self.comps.len() == 0 {
            None
        } else {
            let ghost s = self.comps@;
            let ghost vp = value_of(self.primes@);
            let e = self.comps.remove(0);
            proof {
                lemma_power_product_first(s, 0);
                assert(self.comps@ =~= s.subrange(1, s.len() as int));
                assert(s[0].0 >= 2 && !oracle_prime(s[0].0 as nat));
                assert(s[0].1 > 0);
                let t = self.comps@;
                assert forall|i: int| 0 <= i < t.len() implies #[trigger] t[i].0 >= 2 && !oracle_prime(t[i].0 as nat) by {
                    assert(t[i] == s[i + 1]);
                }
                assert forall|i: int, j: int| 0 <= i < j < t.len() implies #[trigger] t[i].0 < #[trigger] t[j].0 by {
                    assert(t[i] == s[i + 1]);
                    assert(t[j] == s[j + 1]);
                }
                assert forall|i: int| 0 <= i < t.len() implies #[trigger] t[i].1 > 0 by {
                    assert(t[i] == s[i + 1]);
                }
                let a = value_of(t);
                let b = pow(s[0].0 as int, s[0].1 as nat);
                assert(a * b * vp == a * vp * b) by (nonlinear_arith);
            }
            Some(e)
        }
    }
}

/// What is left of the input has no prime factor up to `bound`.
pub open spec fn no_prime_factor_up_to(n: nat, bound: int) -> bool {
    forall|q: nat| 2 <= q <= bound && is_prime(q) ==> #[trigger] (n % q) != 0
}

/// A number of at least 2 whose prime factors are all at least `p`, below `p^2`, is prime.
proof fn lemma_prime_below_square(n: nat, p: nat)
    requires
        n >= 2,
        p >= 2,
        p * p > n,
        no_prime_factor_up_to(n, p - 1),
    ensures
        is_prime(n),
{
    assert forall|d: nat| 2 <= d < n implies #[trigger] (n % d) != 0 by {
        if n % d == 0 {
            lemma_fundamental_div_mod(n as int, d as int);
            let e = (n / d) as nat;
            assert(n == d * e);
            assert(e >= 2) by (nonlinear_arith)
                requires
                    n == d * e,
                    d < n,
            ;
            let q1 = lemma_prime_divisor(d);
            let q2 = lemma_prime_divisor(e);
            lemma_divides_trans(n, d, q1);
            assert(n % e == 0) by {
                lemma_mod_multiples_basic(d as int, e as int);
            }
            lemma_divides_trans(n, e, q2);
            assert(q1 >= p && q2 >= p);
            lemma_fundamental_div_mod(d as int, q1 as int);
            lemma_fundamental_div_mod(e as int, q2 as int);
            assert(d >= q1 && e >= q2) by (nonlinear_arith)
                requires
                    d == q1 * (d / q1),
                    e == q2 * (e / q2),
                    d >= 1,
                    e >= 1,
                    q1 >= 1,
                    q2 >= 1,
            ;
            assert(n >= p * p) by (nonlinear_arith)
                requires
                    n == d * e,
                    d >= q1 >= p,
                    e >= q2 >= p,
            ;
        }
    }
}

/// Divides out the primes of the sequence up to `limit`. Returns what is left of `n` and the
/// prime powers divided out; stops early, recording the rest as a prime, once the next
/// prime's square exceeds what is left.
fn trial_div(n: u64, limit: u64) -> (r: (u64, PrimeFactorization))
    requires
        n > 0,
        limit <= 0xffff_ffff,
    ensures
        r.1.wf(),
        r.0 >= 1,
        r.0 * value_of(r.1@) == n,
        r.0 == 1 || no_prime_factor_up_to(r.0 as nat, limit as int),
        forall|i: int|
            0 <= i < r.1@.len() ==> #[trigger] r.1@[i].0 <= limit || (r.0 == 1 && r.1@[i].1 == 1
                && is_prime(r.1@[i].0 as nat)),
{
    let ghost n0 = n as int;
    let mut n = n;
    let mut ci = CertIter::all();
    let mut res = PrimeFactorization::new();
    loop
        invariant_except_break
            ci@ <= limit || ci@ == 1,
            no_prime_factor_up_to(n as nat, ci@ as int),
            forall|i: int| 0 <= i < res@.len() ==> #[trigger] res@[i].0 <= ci@,
        invariant
            ci.wf(),
            res.wf(),
            n >= 1,
            n * value_of(res@) == n0,
            n0 <= u64::MAX,
            limit <= 0xffff_ffff,
        ensures
            res.wf(),
            n >= 1,
            n * value_of(res@) == n0,
            n == 1 || no_prime_factor_up_to(n as nat, limit as int),
            forall|i: int|
                0 <= i < res@.len() ==> #[trigger] res@[i].0 <= limit || (n == 1 && res@[i].1 == 1
                    && is_prime(res@[i].0 as nat)),
        decreases u64::MAX - ci@,
    {
        proof {
            lemma_factorization_keys(res@);
        }
        if n == 1 {
            break ;
        }
        let ghost prev = ci@ as int;
        proof {
            assert(ci@ < MAX_U64_PRIME);
        }
        let p = match ci.next() {
            Some(p) => p,
            None => {
                proof {
                    assert forall|q: nat| 2 <= q <= limit && is_prime(q) implies #[trigger] (n as nat
                        % q) != 0 by {
                        lemma_primes_in_sequence(q);
                    }
                }
                break ;
            },
        };
        let pp = p.get();
        proof {
            assert forall|q: nat| 2 <= q < pp && is_prime(q) implies #[trigger] (n as nat % q)
                != 0 by {
                lemma_primes_in_sequence(q);
            }
        }
        if pp > limit {
            break ;
        }
        proof {
            lemma_oracle_at_least_two(pp as nat);
            assert(pp * pp <= 0xffff_ffff * 0xffff_ffff) by (nonlinear_arith)
                requires
                    pp <= 0xffff_ffff,
            ;
            lemma_power_product_positive(res@, 0);
        }
        if pp * pp > n {
            proof {
                lemma_prime_below_square(n as nat, pp as nat);
                lemma_prime_passes_oracle(n as nat);
            }
            match Prime::new(n) {
                Some(q) => {
                    proof {
                        lemma_pow1(n as int);
                        assert(1 * value_of(res@) * n == n * value_of(res@)) by (nonlinear_arith);
                        lemma_room_for_power(res@, n, 1, 1);
                        assert forall|i: int| 0 <= i < res@.len() implies #[trigger] res@[i].0 != n by {
                            if n <= prev {
                                assert(n as nat % n as nat == 0) by {
                                    lemma_mod_self_0(n as int);
                                }
                            }
                        }
                        lemma_exponent_absent(res@, n);
                    }
                    let ghost v = value_of(res@);
                    let ghost before = res@;
                    res.add(q, 1);
                    proof {
                        assert(1 * value_of(res@) == n * v) by (nonlinear_arith)
                            requires
                                value_of(res@) == v * n,
                        ;
                        let t = res@;
                        lemma_keys_after_update(before, t, n, 1);
                        assert forall|i: int| 0 <= i < t.len() implies #[trigger] t[i].0 <= limit || (
                        t[i].1 == 1 && is_prime(t[i].0 as nat)) by {
                            lemma_exponent_at(t, i);
                            if t[i].0 != n {
                                let j = choose|j: int| 0 <= j < before.len() && before[j].0 == t[i].0;
                            }
                        }
                    }
                    n = 1;
                },
                None => {},
            }
            break ;
        }
        while n % pp == 0
            invariant
                res.wf(),
                n >= 1,
                pp >= 2,
                p@ == pp,
                pp == ci@,
                pp <= limit,
                n * value_of(res@) == n0,
                n0 <= u64::MAX,
                no_prime_factor_up_to(n as nat, pp - 1),
                forall|i: int| 0 <= i < res@.len() ==> #[trigger] res@[i].0 <= ci@,
            decreases n,
        {
            proof {
                lemma_factorization_keys(res@);
                lemma_power_product_positive(res@, 0);
                lemma_pow1(pp as int);
                lemma_fundamental_div_mod(n as int, pp as int);
                let q = n / pp;
                assert(n == pp * q);
                assert(1 <= q < n) by (nonlinear_arith)
                    requires
                        n == pp * q,
                        n >= 1,
                        pp >= 2,
                ;
                assert(value_of(res@) * pp <= n0) by (nonlinear_arith)
                    requires
                        n == pp * q,
                        q >= 1,
                        n * value_of(res@) == n0,
                        value_of(res@) >= 1,
                ;
                assert(1 * value_of(res@) * pp == value_of(res@) * pp);
                lemma_room_for_power(res@, pp, 1, 1);
                assert forall|x: nat| 2 <= x <= pp - 1 && is_prime(x) implies #[trigger] (q as nat % x) != 0 by {
                    if q as nat % x == 0 {
                        lemma_mod_multiples_basic(pp as int, q as int);
                        assert(n as nat % q as nat == 0) by {
                            assert(n == pp * q);
                        }
                        lemma_divides_trans(n as nat, q as nat, x);
                    }
                }
            }
            let ghost v = value_of(res@);
            let ghost before = res@;
            res.add(p, 1);
            proof {
                let q = n / pp;
                assert(q * value_of(res@) == n0) by (nonlinear_arith)
                    requires
                        n == pp * q,
                        n * v == n0,
                        value_of(res@) == v * pp,
                ;
                let t = res@;
                lemma_keys_after_update(before, t, pp, 1);
                assert forall|i: int| 0 <= i < t.len() implies #[trigger] t[i].0 <= ci@ by {
                    if t[i].0 != pp {
                        let j = choose|j: int| 0 <= j < before.len() && before[j].0 == t[i].0;
                    }
                }
            }
            n = n / pp;
        }
        proof {
            assert forall|q: nat| 2 <= q <= pp && is_prime(q) implies #[trigger] (n as nat % q) != 0 by {
                if q < pp {
                } else {
                    assert(q == pp);
                }
            }
        }
    }
    (n, res)
}

/// Pollard's rho with the polynomial `x^2 + r` and starting value 2, in 64-bit arithmetic:
/// records `n64^np` split into the factor that the attempt finds and its cofactor, or whole
/// when it finds none.
fn rho_u64(fac: &mut IncFac, n64: u64, np: u64, r: u64)
    requires
        old(fac).wf(),
        n64 >= 2,
        np > 0,
        old(fac).value() * pow(n64 as int, np as nat) <= u64::MAX,
        n64 * n64 + r < u64::MAX,
    ensures
        final(fac).wf(),
        final(fac).value() == old(fac).value() * pow(n64 as int, np as nat),
        forall|q: u64|
            #[trigger] exponent_of(final(fac).primes@, q) == exponent_of(old(fac).primes@, q)
                + rho_recorded(n64 as nat, np as nat, r as nat, q, true),
        forall|q: u64|
            #[trigger] exponent_of(final(fac).comps@, q) == exponent_of(old(fac).comps@, q)
                + rho_recorded(n64 as nat, np as nat, r as nat, q, false),
{
    let r = r as u64;
    let n = n64 as u64;
    proof {
        assert(n <= 0xffff_ffff) by (nonlinear_arith)
            requires
                n * n + r < u64::MAX,
        ;
    }
    let mut a: u64 = 2;
    let mut b: u64 = 2;
    // The factor found; `n` when the attempt failed.
    let mut f: u64 = n;
    // Floyd's cycle detection meets within `n` steps, when the gcd is `n` at the latest.
    let mut steps: u64 = 0;
    loop
        invariant_except_break
            f == n,
            rho_factor(n as nat, r as nat) == rho_factor_from(n as nat, r as nat, (steps + 1) as nat),
            a <= n,
            b <= n,
            a == rho_x(n as nat, r as nat, 2 * steps as nat),
            b == rho_x(n as nat, r as nat, steps as nat),
        invariant
            n == n64,
            n >= 2,
            n * n + r < u64::MAX,
            n <= 0xffff_ffff,
        ensures
            f == n || (1 < f < n && n % f == 0),
            f == rho_factor(n as nat, r as nat),
        decreases n - steps,
    {
        if steps >= n {
            break ;
        }
        proof {
            assert(a * a + r <= n * n + r) by (nonlinear_arith)
                requires
                    a <= n,
            ;
            assert(b * b + r <= n * n + r) by (nonlinear_arith)
                requires
                    b <= n,
            ;
        }
        a = (a * a + r) % n;
        proof {
            assert(a * a + r <= n * n + r) by (nonlinear_arith)
                requires
                    a <= n,
            ;
            assert(a == rho_x(n as nat, r as nat, (2 * steps + 1) as nat));
        }
        a = (a * a + r) % n;
        b = (b * b + r) % n;
        proof {
            assert(a == rho_x(n as nat, r as nat, (2 * steps + 2) as nat));
            assert(b == rho_x(n as nat, r as nat, (steps + 1) as nat));
            assert(2 * (steps + 1) == 2 * steps + 2);
        }
        let g = gcd_u64(n, a + n - b);
        proof {
            lemma_gcd_divides(n as nat, (a + n - b) as nat);
            if g > n {
                lemma_small_mod(n as nat, g as nat);
            }
            assert(g == rho_gcd(n as nat, r as nat, (steps + 1) as nat));
        }
        if g == n {
            break ;
        } else if g > 1 {
            f = g;
            break ;
        }
        steps = steps + 1;
    }
    let ghost g = f as nat;
    if f == n {
        fac.add(n64, np);
    } else {
        let small = f as u64;
        let q = n64 / small;
        proof {
            lemma_fundamental_div_mod(n64 as int, small as int);
            assert(n64 == small * q);
            assert(q >= 2) by (nonlinear_arith)
                requires
                    n64 == small * q,
                    small < n64,
                    small > 1,
            ;
            lemma_pow_distributes(small as int, q as int, np as nat);
            lemma_pow_positive(small as int, np as nat);
            lemma_pow_positive(q as int, np as nat);
            fac.lemma_positive();
            let v = fac.value();
            let pf = pow(small as int, np as nat);
            let pq = pow(q as int, np as nat);
            assert(v * pf <= v * (pf * pq)) by (nonlinear_arith)
                requires
                    v >= 1,
                    pf >= 1,
                    pq >= 1,
            ;
        }
        let ghost v = fac.value();
        fac.add(small, np);
        proof {
            assert(fac.value() * pow(q as int, np as nat) == v * pow(n64 as int, np as nat)) by (nonlinear_arith)
                requires
                    fac.value() == v * pow(small as int, np as nat),
                    pow(n64 as int, np as nat) == pow(small as int, np as nat) * pow(q as int, np as nat),
            ;
        }
        fac.add(q, np);
    }
}

/// Pollard's rho with the polynomial `x^2 + r` and starting value 2, in 128-bit arithmetic:
/// records `n64^np` split into the factor that the attempt finds and its cofactor, or whole
/// when it finds none.
fn rho_u128(fac: &mut IncFac, n64: u64, np: u64, r: u64)
    requires
        old(fac).wf(),
        n64 >= 2,
        np > 0,
        old(fac).value() * pow(n64 as int, np as nat) <= u64::MAX,
        r <= u64::MAX,
    ensures
        final(fac).wf(),
        final(fac).value() == old(fac).value() * pow(n64 as int, np as nat),
        forall|q: u64|
            #[trigger] exponent_of(final(fac).primes@, q) == exponent_of(old(fac).primes@, q)
                + rho_recorded(n64 as nat, np as nat, r as nat, q, true),
        forall|q: u64|
            #[trigger] exponent_of(final(fac).comps@, q) == exponent_of(old(fac).comps@, q)
                + rho_recorded(n64 as nat, np as nat, r as nat, q, false),
{
    let r = r as u128;
    let n = n64 as u128;
    proof {
        assert(n * n + r <= u128::MAX) by (nonlinear_arith)
            requires
                n <= u64::MAX,
                r <= u64::MAX,
        ;
    }
    let mut a: u128 = 2;
    let mut b: u128 = 2;
    // The factor found; `n` when the attempt failed.
    let mut f: u128 = n;
    // Floyd's cycle detection meets within `n` steps, when the gcd is `n` at the latest.
    let mut steps: u128 = 0;
    loop
        invariant_except_break
            f == n,
            rho_factor(n as nat, r as nat) == rho_factor_from(n as nat, r as nat, (steps + 1) as nat),
            a <= n,
            b <= n,
            a == rho_x(n as nat, r as nat, 2 * steps as nat),
            b == rho_x(n as nat, r as nat, steps as nat),
        invariant
            n == n64,
            n >= 2,
            n * n + r <= u128::MAX,
            n <= u64::MAX,
        ensures
            f == n || (1 < f < n && n % f == 0),
            f == rho_factor(n as nat, r as nat),
        decreases n - steps,
    {
        if steps >= n {
            break ;
        }
        proof {
            assert(a * a + r <= n * n + r) by (nonlinear_arith)
                requires
                    a <= n,
            ;
            assert(b * b + r <= n * n + r) by (nonlinear_arith)
                requires
                    b <= n,
            ;
        }
        a = (a * a + r) % n;
        proof {
            assert(a * a + r <= n * n + r) by (nonlinear_arith)
                requires
                    a <= n,
            ;
            assert(a == rho_x(n as nat, r as nat, (2 * steps + 1) as nat));
        }
        a = (a * a + r) % n;
        b = (b * b + r) % n;
        proof {
            assert(a == rho_x(n as nat, r as nat, (2 * steps + 2) as nat));
            assert(b == rho_x(n as nat, r as nat, (steps + 1) as nat));
            assert(2 * (steps + 1) == 2 * steps + 2);
        }
        let g = gcd_u128(n, a + n - b);
        proof {
            lemma_gcd_divides(n as nat, (a + n - b) as nat);
            if g > n {
                lemma_small_mod(n as nat, g as nat);
            }
            assert(g == rho_gcd(n as nat, r as nat, (steps + 1) as nat));
        }
        if g == n {
            break ;
        } else if g > 1 {
            f = g;
            break ;
        }
        steps = steps + 1;
    }
    let ghost g = f as nat;
    if f == n {
        fac.add(n64, np);
    } else {
        let small = f as u64;
        let q = n64 / small;
        proof {
            lemma_fundamental_div_mod(n64 as int, small as int);
            assert(n64 == small * q);
            assert(q >= 2) by (nonlinear_arith)
                requires
                    n64 == small * q,
                    small < n64,
                    small > 1,
            ;
            lemma_pow_distributes(small as int, q as int, np as nat);
            lemma_pow_positive(small as int, np as nat);
            lemma_pow_positive(q as int, np as nat);
            fac.lemma_positive();
            let v = fac.value();
            let pf = pow(small as int, np as nat);
            let pq = pow(q as int, np as nat);
            assert(v * pf <= v * (pf * pq)) by (nonlinear_arith)
                requires
                    v >= 1,
                    pf >= 1,
                    pq >= 1,
            ;
        }
        let ghost v = fac.value();
        fac.add(small, np);
        proof {
            assert(fac.value() * pow(q as int, np as nat) == v * pow(n64 as int, np as nat)) by (nonlinear_arith)
                requires
                    fac.value() == v * pow(small as int, np as nat),
                    pow(n64 as int, np as nat) == pow(small as int, np as nat) * pow(q as int, np as nat),
            ;
        }
        fac.add(q, np);
    }
}

/// Takes the least pending value and makes one rho attempt on it with the polynomial
/// `x^2 + r`, in 64-bit arithmetic where `m^2 + r` fits and in 128-bit arithmetic otherwise.
fn rho_step(fac: &mut IncFac, r: u64)
    requires
        old(fac).wf(),
        old(fac).comps@.len() > 0,
        old(fac).value() <= u64::MAX,
    ensures
        final(fac).wf(),
        final(fac).value() == old(fac).value(),
        forall|q: u64|
            #[trigger] exponent_of(final(fac).primes@, q) == exponent_of(old(fac).primes@, q)
                + rho_recorded(
                old(fac).comps@[0].0 as nat,
                old(fac).comps@[0].1 as nat,
                r as nat,
                q,
                true,
            ),
        forall|q: u64|
            #[trigger] exponent_of(final(fac).comps@, q) == exponent_of(
                old(fac).comps@.subrange(1, old(fac).comps@.len() as int),
                q,
            ) + rho_recorded(old(fac).comps@[0].0 as nat, old(fac).comps@[0].1 as nat, r as nat, q, false),
{
    match fac.take_composite() {
        Some((n64, np)) => {
            let n = n64 as u128;
            proof {
                assert(n * n <= 0xffff_ffff_ffff_ffffu128 * 0xffff_ffff_ffff_ffffu128) by (nonlinear_arith)
                    requires
                        n <= 0xffff_ffff_ffff_ffffu128,
                ;
            }
            if n * n + (r as u128) < (u64::MAX as u128) {
                rho_u64(fac, n64, np, r);
            } else {
                proof {
                    let nn = n64 as u128;
                    assert(nn * nn + r <= u128::MAX) by (nonlinear_arith)
                        requires
                            nn <= u64::MAX,
                            r <= u64::MAX,
                    ;
                }
                rho_u128(fac, n64, np, r);
            }
        },
        None => {},
    }
}

/// Takes one pending value and splits off its least divisor, which is prime.
fn trial_split(fac: &mut IncFac)
    requires
        old(fac).wf(),
        old(fac).comps@.len() > 0,
        old(fac).value() <= u64::MAX,
    ensures
        final(fac).wf(),
        final(fac).value() == old(fac).value(),
        final(fac).pending() < old(fac).pending(),
{
    match fac.take_composite() {
        Some((m, np)) => {
            let mut d: u64 = 2;
            while m % d != 0
                invariant
                    2 <= d <= m,
                    forall|e: nat| 2 <= e < d ==> #[trigger] (m as nat % e) != 0,
                decreases m - d,
            {
                proof {
                    lemma_mod_self_0(m as int);
                }
                d = d + 1;
            }
            proof {
                assert forall|e: nat| 2 <= e < d implies #[trigger] (d as nat % e) != 0 by {
                    if d as nat % e == 0 {
                        lemma_fundamental_div_mod(d as int, e as int);
                        lemma_fundamental_div_mod(m as int, d as int);
                        let x = d as int / e as int;
                        let y = m as int / d as int;
                        assert(m == e * (x * y)) by (nonlinear_arith)
                            requires
                                d == e * x,
                                m == d * y,
                        ;
                        lemma_mod_multiples_basic(x * y, e as int);
                        assert(m as nat % e == 0);
                    }
                }
                assert(is_prime(d as nat));
                lemma_prime_passes_oracle(d as nat);
            }
            let q = m / d;
            proof {
                lemma_fundamental_div_mod(m as int, d as int);
                assert(m == d * q);
                assert(2 <= q < m) by (nonlinear_arith)
                    requires
                        m == d * q,
                        d < m,
                        d >= 2,
                ;
                lemma_pow_distributes(d as int, q as int, np as nat);
                lemma_pow_positive(d as int, np as nat);
                lemma_pow_positive(q as int, np as nat);
                lemma_pow_increases(d as nat, 1, np as nat);
                lemma_pow1(d as int);
                fac.lemma_positive();
                let v = fac.value();
                let pd = pow(d as int, np as nat);
                let pq = pow(q as int, np as nat);
                assert(v * pd <= v * (pd * pq)) by (nonlinear_arith)
                    requires
                        v >= 1,
                        pd >= 1,
                        pq >= 1,
                ;
                let w = fac.pending();
                assert(w * pq < w * (pd * pq)) by (nonlinear_arith)
                    requires
                        w >= 1,
                        pd >= 2,
                        pq >= 1,
                ;
            }
            let ghost v = fac.value();
            fac.add(d, np);
            proof {
                assert(fac.value() * pow(q as int, np as nat) == v * pow(m as int, np as nat)) by (nonlinear_arith)
                    requires
                        fac.value() == v * pow(d as int, np as nat),
                        pow(m as int, np as nat) == pow(d as int, np as nat) * pow(q as int, np as nat),
                ;
            }
            let ghost w = fac.pending();
            fac.add(q, np);
            proof {
                lemma_pow_positive(q as int, np as nat);
                assert(fac.pending() <= w * pow(q as int, np as nat)) by (nonlinear_arith)
                    requires
                        w >= 1,
                        pow(q as int, np as nat) >= 1,
                        fac.pending() == w || fac.pending() == w * pow(q as int, np as nat),
                ;
            }
        },
        None => {},
    }
}

/// Factors `n >= 2` with Pollard's rho: one attempt per step, the polynomial's constant
/// growing from 1 across the whole run. Should the counter's range ever run out, the values
/// still pending are split by trial division.
fn factor_rho(n: u64) -> (r: PrimeFactorization)
    requires
        n >= 2,
    ensures
        r.wf(),
        value_of(r@) == n,
{
    let mut fac = IncFac::new();
    proof {
        lemma_pow1(n as int);
    }
    fac.add(n, 1);
    let mut r: u64 = 1;
    while !fac.done() && r < u64::MAX
        invariant
            fac.wf(),
            fac.value() == n,
            n <= u64::MAX,
        decreases u64::MAX - r,
    {
        rho_step(&mut fac, r);
        r = r + 1;
    }
    while !fac.done()
        invariant
            fac.wf(),
            fac.value() == n,
            n <= u64::MAX,
        decreases fac.pending(),
    {
        proof {
            fac.lemma_positive();
        }
        trial_split(&mut fac);
        proof {
            fac.lemma_positive();
        }
    }
    proof {
        assert(value_of(fac.comps@) == 1);
    }
    fac.take()
}

/// Determines the prime factors of `n`.
///
/// Divides out the primes below a small limit, then factors what is left with Pollard's rho.
pub fn factor(n: u64) -> (r: PrimeFactorization)
    requires
        n >= 1,
    ensures
        r.wf(),
        value_of(r@) == n,
{
    let limit: u64 = 100;
    let (n_left, pf) = trial_div(n, limit);
    if n_left == 1 {
        proof {
            assert(1 * value_of(pf@) == value_of(pf@));
        }
        pf
    } else {
        let mut pf2 = factor_rho(n_left);
        proof {
            lemma_factorization_keys(pf2@);
            lemma_factorization_keys(pf@);
            assert forall|q: u64| #[trigger] exponent_of(pf2@, q) + exponent_of(pf@, q) * 1 <= u64::MAX by {
                lemma_exponent_sum_bounded(pf2@, pf@, q);
            }
            lemma_pow1(value_of(pf@));
        }
        pf2.add_pf(&pf, 1);
        pf2
    }
}

/// Euler's totient function of `n`, from a factorization of `n`.
pub fn euler_totient(n: u64) -> (r: u64)
    requires
        n >= 1,
    ensures
        exists|s: Seq<(u64, u64)>| is_factorization(s) && value_of(s) == n && r == totient_of(s),
{
    let f = factor(n);
    let r = f.euler_totient();
    proof {
        assert(is_factorization(f@) && value_of(f@) == n && r == totient_of(f@));
    }
    r
}

/// The Möbius function of `x / y`: zero when `x` is zero or `y` does not divide it. The
/// denominator must not be zero.
pub fn mobius(x: u64, y: u64) -> (r: i64)
    requires
        y != 0,
    ensures
        x == 0 ==> r == 0,
        x != 0 && x % y != 0 ==> r == 0,
        x != 0 && x % y == 0 ==> exists|s: Seq<(u64, u64)>|
            is_factorization(s) && value_of(s) == x / y && r == mobius_of(s),
{
    if x == 0 {
        0
    } else if x % y != 0 {
        0
    } else {
        proof {
            lemma_fundamental_div_mod(x as int, y as int);
            assert(x / y >= 1) by (nonlinear_arith)
                requires
                    x == y * (x / y) + x % y,
                    x % y == 0,
                    x >= 1,
                    y >= 1,
            ;
        }
        let f = factor(x / y);
        let r = f.mobius();
        proof {
            assert(is_factorization(f@) && value_of(f@) == x / y && r == mobius_of(f@));
        }
        r
    }
}
} // verus!
