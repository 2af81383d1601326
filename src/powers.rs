use vstd::arithmetic::power::*;
use vstd::prelude::*;

verus! {

/// A list of `(key, exponent)` entries with strictly ascending keys and positive exponents:
/// the canonical form of a finite map from keys to positive exponents.
pub open spec fn is_power_list(s: Seq<(u64, u64)>) -> bool {
    &&& forall|i: int, j: int| 0 <= i < j < s.len() ==> #[trigger] s[i].0 < #[trigger] s[j].0
    &&& forall|i: int| 0 <= i < s.len() ==> #[trigger] s[i].1 > 0
}

/// The exponent that `s` records for `k`, zero when `k` is absent.
pub open spec fn exponent_of(s: Seq<(u64, u64)>, k: u64) -> nat {
    if exists|i: int| 0 <= i < s.len() && s[i].0 == k {
        s[choose|i: int| 0 <= i < s.len() && s[i].0 == k].1 as nat
    } else {
        0
    }
}

/// The product of `(key - shift)^exponent` over the entries of `s`.
///
/// With `shift == 0` this is the number that the entries stand for.
pub open spec fn power_product(s: Seq<(u64, u64)>, shift: int) -> int
    decreases s.len(),
{
    if s.len() == 0 {
        1
    } else {
        power_product(s.drop_last(), shift) * pow(s.last().0 - shift, s.last().1 as nat)
    }
}

/// The number that the entries of `s` stand for: the product of `key^exponent`.
pub open spec fn value_of(s: Seq<(u64, u64)>) -> int {
    power_product(s, 0)
}

/// Every key of `s` is greater than `bound`.
pub open spec fn keys_above(s: Seq<(u64, u64)>, bound: int) -> bool {
    forall|i: int| 0 <= i < s.len() ==> #[trigger] s[i].0 > bound
}

pub proof fn lemma_exponent_at(s: Seq<(u64, u64)>, i: int)
    requires
        is_power_list(s),
        0 <= i < s.len(),
    ensures
        exponent_of(s, s[i].0) == s[i].1,
{
    let k = s[i].0;
    assert(0 <= i < s.len() && s[i].0 == k);
    let j = choose|j: int| 0 <= j < s.len() && s[j].0 == k;
    if j < i {
        assert(s[j].0 < s[i].0);
    } else if j > i {
        assert(s[i].0 < s[j].0);
    }
}

pub proof fn lemma_exponent_absent(s: Seq<(u64, u64)>, k: u64)
    requires
        forall|i: int| 0 <= i < s.len() ==> #[trigger] s[i].0 != k,
    ensures
        exponent_of(s, k) == 0,
{
}

proof fn lemma_power_product_insert(s: Seq<(u64, u64)>, i: int, x: (u64, u64), shift: int)
    requires
        0 <= i <= s.len(),
    ensures
        power_product(s.insert(i, x), shift) == power_product(s, shift) * pow(
            x.0 - shift,
            x.1 as nat,
        ),
    decreases s.len(),
{
    let t = s.insert(i, x);
    if i == s.len() {
        assert(t.drop_last() =~= s);
    } else {
        assert(t.drop_last() =~= s.drop_last().insert(i, x));
        assert(t.last() == s.last());
        lemma_power_product_insert(s.drop_last(), i, x, shift);
        let a = power_product(s.drop_last(), shift);
        let b = pow(x.0 - shift, x.1 as nat);
        let c = pow(s.last().0 - shift, s.last().1 as nat);
        assert((a * b) * c == (a * c) * b) by (nonlinear_arith);
    }
}

proof fn lemma_power_product_update(s: Seq<(u64, u64)>, i: int, x: (u64, u64), shift: int)
    requires
        0 <= i < s.len(),
    ensures
        power_product(s.update(i, x), shift) * pow(s[i].0 - shift, s[i].1 as nat)
            == power_product(s, shift) * pow(x.0 - shift, x.1 as nat),
    decreases s.len(),
{
    let t = s.update(i, x);
    let a = power_product(s.drop_last(), shift);
    let b = pow(x.0 - shift, x.1 as nat);
    let d = pow(s[i].0 - shift, s[i].1 as nat);
    if i == s.len() - 1 {
        assert(t.drop_last() =~= s.drop_last());
        assert(t.last() == x);
        assert((a * b) * d == (a * d) * b) by (nonlinear_arith);
    } else {
        assert(t.drop_last() =~= s.drop_last().update(i, x));
        assert(t.last() == s.last());
        lemma_power_product_update(s.drop_last(), i, x, shift);
        let a2 = power_product(s.drop_last().update(i, x), shift);
        let c = pow(s.last().0 - shift, s.last().1 as nat);
        assert(a2 * d == a * b);
        assert((a2 * c) * d == (a * c) * b) by (nonlinear_arith)
            requires
                a2 * d == a * b,
        ;
    }
}

/// Removing the first entry divides out its power.
pub proof fn lemma_power_product_first(s: Seq<(u64, u64)>, shift: int)
    requires
        s.len() > 0,
    ensures
        power_product(s, shift) == power_product(s.subrange(1, s.len() as int), shift) * pow(
            s[0].0 - shift,
            s[0].1 as nat,
        ),
{
    let rest = s.subrange(1, s.len() as int);
    assert(rest.insert(0, s[0]) =~= s);
    lemma_power_product_insert(rest, 0, s[0], shift);
}

/// With every base at least one, the product is at least one.
pub proof fn lemma_power_product_positive(s: Seq<(u64, u64)>, shift: int)
    requires
        keys_above(s, shift),
    ensures
        power_product(s, shift) >= 1,
    decreases s.len(),
{
    if s.len() > 0 {
        assert(keys_above(s.drop_last(), shift)) by {
            assert forall|i: int| 0 <= i < s.drop_last().len() implies #[trigger] s.drop_last()[i].0
                > shift by {
                assert(s.drop_last()[i] == s[i]);
            }
        }
        lemma_power_product_positive(s.drop_last(), shift);
        lemma_pow_positive(s.last().0 - shift, s.last().1 as nat);
        let a = power_product(s.drop_last(), shift);
        let b = pow(s.last().0 - shift, s.last().1 as nat);
        assert(a * b >= 1) by (nonlinear_arith)
            requires
                a >= 1,
                b >= 1,
        ;
    }
}

/// A prefix of the entries multiplies to no more than all of them.
pub proof fn lemma_power_product_prefix(s: Seq<(u64, u64)>, i: int, shift: int)
    requires
        keys_above(s, shift),
        0 <= i <= s.len(),
    ensures
        1 <= power_product(s.take(i), shift) <= power_product(s, shift),
    decreases s.len() - i,
{
    assert(keys_above(s.take(i), shift)) by {
        assert forall|j: int| 0 <= j < s.take(i).len() implies #[trigger] s.take(i)[j].0
            > shift by {
            assert(s.take(i)[j] == s[j]);
        }
    }
    lemma_power_product_positive(s.take(i), shift);
    if i < s.len() {
        lemma_power_product_prefix(s, i + 1, shift);
        assert(s.take(i + 1).drop_last() =~= s.take(i));
        assert(s.take(i + 1).last() == s[i]);
        lemma_pow_positive(s[i].0 - shift, s[i].1 as nat);
        let a = power_product(s.take(i), shift);
        let b = pow(s[i].0 - shift, s[i].1 as nat);
        assert(a <= a * b) by (nonlinear_arith)
            requires
                a >= 1,
                b >= 1,
        ;
    } else {
        assert(s.take(i) =~= s);
    }
}

/// The power of any one key is bounded by the whole product.
pub proof fn lemma_power_of_key_bounded(s: Seq<(u64, u64)>, k: u64)
    requires
        is_power_list(s),
        keys_above(s, 0),
    ensures
        pow(k as int, exponent_of(s, k)) <= value_of(s),
{
    lemma_power_product_positive(s, 0);
    if exists|i: int| 0 <= i < s.len() && s[i].0 == k {
        let i = choose|i: int| 0 <= i < s.len() && s[i].0 == k;
        lemma_exponent_at(s, i);
        let t = s.update(i, (k, 0));
        lemma_power_product_update(s, i, (k, 0), 0);
        assert(keys_above(t, 0)) by {
            assert forall|j: int| 0 <= j < t.len() implies #[trigger] t[j].0 > 0 by {
                if j != i {
                    assert(t[j] == s[j]);
                }
            }
        }
        lemma_power_product_positive(t, 0);
        assert(pow(k as int, 0) == 1) by {
            reveal(pow);
        }
        lemma_pow_positive(k as int, exponent_of(s, k));
        let a = power_product(t, 0);
        let b = pow(k as int, exponent_of(s, k));
        assert(b <= a * b) by (nonlinear_arith)
            requires
                a >= 1,
                b >= 0,
        ;
    } else {
        assert(pow(k as int, 0) == 1) by {
            reveal(pow);
        }
    }
}

/// An exponent of a base of at least two is smaller than the power it gives.
pub proof fn lemma_exponent_below_power(k: int, e: nat)
    requires
        k >= 2,
    ensures
        e < pow(k, e),
    decreases e,
{
    reveal(pow);
    if e > 0 {
        lemma_exponent_below_power(k, (e - 1) as nat);
        let p = pow(k, (e - 1) as nat);
        assert(k * p >= 2 * p) by (nonlinear_arith)
            requires
                k >= 2,
                p >= 0,
        ;
    }
}

pub proof fn lemma_power_list_take(s: Seq<(u64, u64)>, i: int)
    requires
        is_power_list(s),
        0 <= i <= s.len(),
    ensures
        is_power_list(s.take(i)),
        forall|b: int| keys_above(s, b) ==> keys_above(s.take(i), b),
{
    assert forall|j: int| 0 <= j < s.take(i).len() implies #[trigger] s.take(i)[j] == s[j] by {}
}

/// Extending a prefix by one entry adds that entry's exponent.
pub proof fn lemma_exponent_prefix(s: Seq<(u64, u64)>, i: int, q: u64)
    requires
        is_power_list(s),
        0 <= i < s.len(),
    ensures
        exponent_of(s.take(i + 1), q) == exponent_of(s.take(i), q) + (if q == s[i].0 {
            s[i].1 as nat
        } else {
            0nat
        }),
{
    let a = s.take(i);
    let b = s.take(i + 1);
    lemma_power_list_take(s, i);
    lemma_power_list_take(s, i + 1);
    assert(b[i] == s[i]);
    if q == s[i].0 {
        lemma_exponent_at(b, i);
        assert forall|j: int| 0 <= j < a.len() implies #[trigger] a[j].0 != q by {
            assert(a[j] == s[j]);
        }
        lemma_exponent_absent(a, q);
    } else if exists|j: int| 0 <= j < a.len() && a[j].0 == q {
        let j = choose|j: int| 0 <= j < a.len() && a[j].0 == q;
        lemma_exponent_at(a, j);
        assert(b[j] == a[j]);
        lemma_exponent_at(b, j);
    } else {
        assert forall|j: int| 0 <= j < b.len() implies #[trigger] b[j].0 != q by {
            if j < i {
                assert(b[j] == a[j]);
            }
        }
        lemma_exponent_absent(b, q);
    }
}

/// Room for `c` more factors `k`: when the product with them still fits, so does the exponent.
pub proof fn lemma_room_for_power(s: Seq<(u64, u64)>, k: u64, c: u64, other: int)
    requires
        is_power_list(s),
        keys_above(s, 0),
        k >= 2,
        other >= 1,
        other * value_of(s) * pow(k as int, c as nat) <= u64::MAX,
    ensures
        exponent_of(s, k) + c <= u64::MAX,
{
    let e = exponent_of(s, k);
    lemma_power_of_key_bounded(s, k);
    lemma_power_product_positive(s, 0);
    lemma_pow_adds(k as int, e, c as nat);
    lemma_exponent_below_power(k as int, e + c as nat);
    lemma_pow_positive(k as int, c as nat);
    let a = pow(k as int, e);
    let b = pow(k as int, c as nat);
    let v = value_of(s);
    assert(a * b <= other * v * b) by (nonlinear_arith)
        requires
            a <= v,
            b >= 1,
            other >= 1,
            v >= 1,
    ;
}

/// Two exponent lists whose products multiply within `u64` have exponents that add within it.
pub proof fn lemma_exponent_sum_bounded(a: Seq<(u64, u64)>, b: Seq<(u64, u64)>, k: u64)
    requires
        is_power_list(a),
        is_power_list(b),
        keys_above(a, 1),
        keys_above(b, 1),
        value_of(a) * value_of(b) <= u64::MAX,
    ensures
        exponent_of(a, k) + exponent_of(b, k) <= u64::MAX,
{
    assert(keys_above(a, 0));
    assert(keys_above(b, 0));
    if k < 2 {
        lemma_exponent_absent(a, k);
        lemma_exponent_absent(b, k);
    } else {
        let ea = exponent_of(a, k);
        let eb = exponent_of(b, k);
        lemma_power_of_key_bounded(a, k);
        lemma_power_of_key_bounded(b, k);
        lemma_pow_adds(k as int, ea, eb);
        lemma_exponent_below_power(k as int, ea + eb);
        lemma_pow_positive(k as int, ea);
        lemma_pow_positive(k as int, eb);
        let x = pow(k as int, ea);
        let y = pow(k as int, eb);
        assert(x * y <= value_of(a) * value_of(b)) by (nonlinear_arith)
            requires
                1 <= x <= value_of(a),
                1 <= y <= value_of(b),
        ;
    }
}

/// After an exponent update at `k`, every key is `k` or was a key before.
pub proof fn lemma_keys_after_update(s: Seq<(u64, u64)>, t: Seq<(u64, u64)>, k: u64, c: nat)
    requires
        is_power_list(s),
        is_power_list(t),
        forall|q: u64| #[trigger] exponent_of(t, q) == exponent_of(s, q) + (if q == k {
            c
        } else {
            0nat
        }),
    ensures
        forall|i: int|
            0 <= i < t.len() ==> #[trigger] t[i].0 == k || exists|j: int|
                0 <= j < s.len() && s[j].0 == t[i].0,
{
    assert forall|i: int| 0 <= i < t.len() implies #[trigger] t[i].0 == k || exists|j: int|
        0 <= j < s.len() && s[j].0 == t[i].0 by {
        lemma_exponent_at(t, i);
        if t[i].0 != k && !exists|j: int| 0 <= j < s.len() && s[j].0 == t[i].0 {
            lemma_exponent_absent(s, t[i].0);
        }
    }
}

/// Adds `c` to the exponent of `k`, keeping the list canonical.
pub(crate) fn add_power(v: &mut Vec<(u64, u64)>, k: u64, c: u64)
    requires
        is_power_list(old(v)@),
        c > 0,
        exponent_of(old(v)@, k) + c <= u64::MAX,
    ensures
        is_power_list(final(v)@),
        forall|q: u64|
            #[trigger] exponent_of(final(v)@, q) == exponent_of(old(v)@, q) + (if q == k {
                c as nat
            } else {
                0nat
            }),
        forall|shift: int|
            shift < k ==> #[trigger] power_product(final(v)@, shift) == power_product(
                old(v)@,
                shift,
            ) * pow(k - shift, c as nat),
        forall|b: int| keys_above(old(v)@, b) && k > b ==> keys_above(final(v)@, b),
{
    let ghost s = v@;
    let mut i: usize = 0;
    while i < v.len() && v[i].0 < k
        invariant
            v@ == s,
            i <= v.len(),
            forall|j: int| 0 <= j < i ==> #[trigger] s[j].0 < k,
        decreases v.len() - i,
    {
        i = i + 1;
    }
    if i < v.len() && v[i].0 == k {
        let e = v[i].1;
        proof {
            lemma_exponent_at(s, i as int);
        }
        v.set(i, (k, e + c));
        proof {
            let t = v@;
            assert(t =~= s.update(i as int, (k, (e + c) as u64)));
            assert forall|q: u64| #[trigger]
                exponent_of(t, q) == exponent_of(s, q) + (if q == k {
                    c as nat
                } else {
                    0nat
                }) by {
                lemma_exponent_at(t, i as int);
                if exists|j: int| 0 <= j < s.len() && s[j].0 == q {
                    let j = choose|j: int| 0 <= j < s.len() && s[j].0 == q;
                    lemma_exponent_at(s, j);
                    lemma_exponent_at(t, j);
                } else {
                    assert forall|j: int| 0 <= j < t.len() implies #[trigger] t[j].0 != q by {
                        if j != i {
                            assert(t[j] == s[j]);
                        }
                    }
                }
            }
            assert forall|shift: int| shift < k implies #[trigger] power_product(t, shift)
                == power_product(s, shift) * pow(k - shift, c as nat) by {
                lemma_power_product_update(s, i as int, (k, (e + c) as u64), shift);
                lemma_pow_adds(k - shift, e as nat, c as nat);
                lemma_pow_positive(k - shift, e as nat);
                let a = power_product(t, shift);
                let b = power_product(s, shift);
                let pe = pow(k - shift, e as nat);
                let pc = pow(k - shift, c as nat);
                assert(a * pe == b * (pe * pc));
                assert(a == b * pc) by (nonlinear_arith)
                    requires
                        a * pe == b * (pe * pc),
                        pe > 0,
                ;
            }
            assert forall|bnd: int| keys_above(s, bnd) && k > bnd implies keys_above(t, bnd) by {
                assert forall|j: int| 0 <= j < t.len() implies #[trigger] t[j].0 > bnd by {
                    if j != i {
                        assert(t[j] == s[j]);
                    }
                }
            }
        }
    } else {
        v.insert(i, (k, c));
        proof {
            let t = v@;
            assert(t =~= s.insert(i as int, (k, c)));
            assert forall|j: int| 0 <= j < s.len() implies #[trigger] s[j].0 != k by {
                if j >= i {
                    if j > i {
                        assert(s[i as int].0 < s[j].0);
                    }
                }
            }
            assert forall|a: int, b: int| 0 <= a < b < t.len() implies #[trigger] t[a].0
                < #[trigger] t[b].0 by {
                if b < i {
                } else if b == i {
                } else if a < i {
                    assert(s[b - 1].0 > k) by {
                        if b - 1 > i {
                            assert(s[i as int].0 < s[b - 1].0);
                        }
                    }
                } else if a == i {
                    assert(s[b - 1].0 > k) by {
                        if b - 1 > i {
                            assert(s[i as int].0 < s[b - 1].0);
                        }
                    }
                } else {
                    assert(s[a - 1].0 < s[b - 1].0);
                }
            }
            assert forall|q: u64| #[trigger]
                exponent_of(t, q) == exponent_of(s, q) + (if q == k {
                    c as nat
                } else {
                    0nat
                }) by {
                lemma_exponent_at(t, i as int);
                if q == k {
                    lemma_exponent_absent(s, k);
                } else if exists|j: int| 0 <= j < s.len() && s[j].0 == q {
                    let j = choose|j: int| 0 <= j < s.len() && s[j].0 == q;
                    lemma_exponent_at(s, j);
                    if j < i {
                        lemma_exponent_at(t, j);
                    } else {
                        assert(t[j + 1] == s[j]);
                        lemma_exponent_at(t, j + 1);
                    }
                } else {
                    assert forall|j: int| 0 <= j < t.len() implies #[trigger] t[j].0 != q by {
                        if j < i {
                            assert(t[j] == s[j]);
                        } else if j > i {
                            assert(t[j] == s[j - 1]);
                        }
                    }
                }
            }
            assert forall|shift: int| shift < k implies #[trigger] power_product(t, shift)
                == power_product(s, shift) * pow(k - shift, c as nat) by {
                lemma_power_product_insert(s, i as int, (k, c), shift);
            }
            assert forall|bnd: int| keys_above(s, bnd) && k > bnd implies keys_above(t, bnd) by {
                assert forall|j: int| 0 <= j < t.len() implies #[trigger] t[j].0 > bnd by {
                    if j < i {
                        assert(t[j] == s[j]);
                    } else if j > i {
                        assert(t[j] == s[j - 1]);
                    }
                }
            }
        }
    }
}

} // verus!
