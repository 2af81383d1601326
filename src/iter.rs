use vstd::prelude::*;

use crate::prime::{is_prime, is_u64_prime, MAX_U64_PRIME, lemma_prime_passes_oracle, oracle_prime, Prime};

verus! {

/// The wheel's modulus, `2 * 3 * 5 * 7`.
const WHEEL: u64 = 210;

/// `m` has none of the wheel's primes 2, 3, 5 and 7 as a factor.
pub open spec fn coprime_to_wheel(m: int) -> bool {
    m % 2 != 0 && m % 3 != 0 && m % 5 != 0 && m % 7 != 0
}

/// `m` is proposed to the oracle by a prime sequence: every number up to the wheel's
/// modulus is, and above it every number prime to the modulus.
pub open spec fn wheel_candidate(m: int) -> bool {
    m <= 210 || coprime_to_wheel(m)
}

/// `m` is a value that a prime sequence yields.
pub open spec fn sequence_prime(m: int) -> bool {
    wheel_candidate(m) && oracle_prime(m as nat)
}

/// `g` is the distance from `r` to the next number prime to the wheel's modulus.
pub open spec fn is_wheel_gap(r: int, g: int) -> bool {
    &&& 1 <= g
    &&& coprime_to_wheel(r + g)
    &&& forall|j: int| 1 <= j < g ==> !coprime_to_wheel(#[trigger] (r + j))
}

/// The table of gaps: entry `r` is the gap from residue `r`.
pub open spec fn is_gap_table(t: Seq<u8>) -> bool {
    t.len() == 210 && forall|r: int| 0 <= r < 210 ==> is_wheel_gap(r, #[trigger] t[r] as int)
}

/// The step from `x` to the next candidate, read from the gap table `t`.
pub open spec fn step_after(t: Seq<u8>, x: int) -> int {
    if x < 210 {
        1
    } else {
        t[x % 210] as int
    }
}

/// Every prime is a value that a prime sequence yields: so a sequence skips no prime.
pub proof fn lemma_primes_in_sequence(m: nat)
    requires
        is_prime(m),
    ensures
        sequence_prime(m as int),
{
    lemma_prime_passes_oracle(m);
    if m > 210 {
        assert(m % 2 != 0);
        assert(m % 3 != 0);
        assert(m % 5 != 0);
        assert(m % 7 != 0);
    }
}

proof fn lemma_coprime_residue(x: int, j: int)
    requires
        x >= 0,
    ensures
        coprime_to_wheel(x + j) == coprime_to_wheel(x % 210 + j),
{
    let q = x / 210;
    let r = x % 210;
    vstd::arithmetic::div_mod::lemma_fundamental_div_mod(x, 210);
    assert(x == 210 * q + r);
    vstd::arithmetic::div_mod::lemma_mod_multiples_vanish(105 * q, r + j, 2);
    vstd::arithmetic::div_mod::lemma_mod_multiples_vanish(70 * q, r + j, 3);
    vstd::arithmetic::div_mod::lemma_mod_multiples_vanish(42 * q, r + j, 5);
    vstd::arithmetic::div_mod::lemma_mod_multiples_vanish(30 * q, r + j, 7);
    assert(x + j == 2 * (105 * q) + (r + j));
    assert(x + j == 3 * (70 * q) + (r + j));
    assert(x + j == 5 * (42 * q) + (r + j));
    assert(x + j == 7 * (30 * q) + (r + j));
}

/// The candidate after `x` is `x + step_after(t, x)`.
proof fn lemma_step(t: Seq<u8>, x: int)
    requires
        is_gap_table(t),
        x >= 0,
    ensures
        step_after(t, x) >= 1,
        wheel_candidate(x + step_after(t, x)),
        forall|m: int| x < m < x + step_after(t, x) ==> !#[trigger] wheel_candidate(m),
{
    if x >= 210 {
        let r = x % 210;
        let g = t[r] as int;
        assert(is_wheel_gap(r, g));
        lemma_coprime_residue(x, g);
        assert forall|m: int| x < m < x + g implies !#[trigger] wheel_candidate(m) by {
            let j = m - x;
            assert(!coprime_to_wheel(r + j));
            lemma_coprime_residue(x, j);
        }
    }
}

/// Computes the table of gaps.
fn wheel_gaps() -> (t: Vec<u8>)
    ensures
        is_gap_table(t@),
{
    let mut t: Vec<u8> = Vec::new();
    let mut r: u64 = 0;
    while r < WHEEL
        invariant
            r <= 210,
            t.len() == r,
            forall|i: int| 0 <= i < r ==> is_wheel_gap(i, #[trigger] t@[i] as int),
        decreases 210 - r,
    {
        let mut g: u64 = 1;
        while !((r + g) % 2 != 0 && (r + g) % 3 != 0 && (r + g) % 5 != 0 && (r + g) % 7 != 0)
            invariant
                r < 210,
                1 <= g,
                r + g <= 211,
                forall|j: int| 1 <= j < g ==> !coprime_to_wheel(#[trigger] (r + j)),
            decreases 211 - r - g,
        {
            g = g + 1;
        }
        t.push(g as u8);
        r = r + 1;
    }
    t
}

/// Where a sequence stands: the last value passed over, and the step to the next candidate.
#[derive(Clone, Copy)]
struct Position {
    last: u64,
    jump: u64,
}

/// PrimeIter produces, in ascending order, the primes from a starting point on.
///
/// It must not be asked for a prime once it has produced the largest prime of `u64`.
pub struct PrimeIter {
    pos: Position,
    gaps: Vec<u8>,
}

impl View for PrimeIter {
    type V = u64;

    /// Every value up to this one has been passed over.
    closed spec fn view(&self) -> u64 {
        self.pos.last
    }
}

impl PrimeIter {
    #[verifier::type_invariant]
    closed spec fn consistent(self) -> bool {
        self.wf()
    }

    /// The gap table and the next step are consistent with the position.
    pub closed spec fn wf(&self) -> bool {
        &&& is_gap_table(self.gaps@)
        &&& self.pos.jump == step_after(self.gaps@, self.pos.last as int)
    }

    /// Returns a sequence of all `u64` primes from `n` on, in ascending order.
    pub fn from(n: u64) -> (r: Self)
        ensures
            r.wf(),
            r@ == if oracle_prime(n as nat) {
                (n - 1) as u64
            } else {
                n
            },
    {
        let gaps = wheel_gaps();
        let last_output = if is_u64_prime(n) {
            proof {
                crate::prime::lemma_oracle_at_least_two(n as nat);
            }
            n - 1
        } else {
            n
        };
        let next_jump = if last_output < WHEEL {
            1
        } else {
            gaps[(last_output % WHEEL) as usize] as u64
        };
        PrimeIter { pos: Position { last: last_output, jump: next_jump }, gaps }
    }

    /// Returns a sequence of all `u64` primes in ascending order.
    pub fn all() -> (r: Self)
        ensures
            r.wf(),
            r@ == 1,
    {
        Self::from(2)
    }

    /// Produces the next prime: the least value above the position that the sequence yields.
    /// Must not be called once the largest `u64` prime has been produced. Gives `None`, and
    /// stays where it is, should no value of the sequence remain in `u64`.
    pub fn next(&mut self) -> (r: Option<u64>)
        requires
            old(self).wf(),
            old(self)@ < MAX_U64_PRIME,
        ensures
            final(self).wf(),
            match r {
                Some(p) => {
                    &&& p == final(self)@
                    &&& old(self)@ < p
                    &&& sequence_prime(p as int)
                    &&& forall|m: int| old(self)@ < m < p ==> !sequence_prime(m)
                },
                None => {
                    &&& final(self)@ == old(self)@
                    &&& forall|m: int| old(self)@ < m <= u64::MAX ==> !sequence_prime(m)
                },
            },
    {
        let ghost start = self.pos.last as int;
        let mut x = self.pos.last;
        let mut jump = self.pos.jump;
        loop
            invariant
                self.wf(),
                self.pos.last == start,
                start == old(self).pos.last,
                start <= x,
                jump == step_after(self.gaps@, x as int),
                forall|m: int| start < m <= x ==> !sequence_prime(m),
            decreases u64::MAX - x,
        {
            proof {
                lemma_step(self.gaps@, x as int);
            }
            let ghost prev = x as int;
            if x > u64::MAX - jump {
                proof {
                    assert forall|m: int| start < m <= u64::MAX implies !sequence_prime(m) by {
                        if m > prev {
                            assert(!wheel_candidate(m));
                        }
                    }
                }
                return None;
            }
            x = x + jump;
            proof {
                assert forall|m: int| start < m < x implies !sequence_prime(m) by {
                    if m > prev {
                        assert(!wheel_candidate(prev + (m - prev)));
                    }
                }
            }
            jump = if x < WHEEL {
                1
            } else {
                self.gaps[(x % WHEEL) as usize] as u64
            };
            if is_u64_prime(x) {
                self.pos = Position { last: x, jump };
                return Some(x);
            }
        }
    }
}

/// Produces a sequence of certified primes, the values of a [`PrimeIter`].
pub struct CertIter {
    pi: PrimeIter,
}

impl View for CertIter {
    type V = u64;

    closed spec fn view(&self) -> u64 {
        self.pi@
    }
}

impl CertIter {
    /// The underlying sequence is consistent.
    pub closed spec fn wf(&self) -> bool {
        self.pi.wf()
    }

    /// Returns a CertIter that produces all `u64` primes.
    pub fn all() -> (r: Self)
        ensures
            r.wf(),
            r@ == 1,
    {
        Self::from_pi(PrimeIter::all())
    }

    /// Returns a CertIter that produces all `u64` primes at or above `n`.
    pub fn from(n: u64) -> (r: Self)
        ensures
            r.wf(),
            r@ == if oracle_prime(n as nat) {
                (n - 1) as u64
            } else {
                n
            },
    {
        Self::from_pi(PrimeIter::from(n))
    }

    /// Turns a PrimeIter into a CertIter.
    pub fn from_pi(pi: PrimeIter) -> (r: Self)
        requires
            pi.wf(),
        ensures
            r.wf(),
            r@ == pi@,
    {
        CertIter { pi }
    }

    /// Produces the next prime of the underlying sequence, certified. Must not be called once
    /// the largest `u64` prime has been produced.
    pub fn next(&mut self) -> (r: Option<Prime>)
        requires
            old(self).wf(),
            old(self)@ < MAX_U64_PRIME,
        ensures
            final(self).wf(),
            match r {
                Some(p) => {
                    &&& p@ == final(self)@
                    &&& old(self)@ < p@
                    &&& sequence_prime(p@ as int)
                    &&& forall|m: int| old(self)@ < m < p@ ==> !sequence_prime(m)
                },
                None => {
                    &&& final(self)@ == old(self)@
                    &&& forall|m: int| old(self)@ < m <= u64::MAX ==> !sequence_prime(m)
                },
            },
    {
        match self.pi.next() {
            Some(n) => Some(Prime::from_certified(n)),
            None => None,
        }
    }
}

impl From<PrimeIter> for CertIter {
    fn from(pi: PrimeIter) -> CertIter {
        CertIter { pi }
    }
}

impl vstd::std_specs::convert::FromSpecImpl<PrimeIter> for CertIter {
    open spec fn obeys_from_spec() -> bool {
        true
    }

    closed spec fn from_spec(v: PrimeIter) -> CertIter {
        CertIter { pi: v }
    }
}

impl Clone for PrimeIter {
    fn clone(&self) -> (r: PrimeIter)
        ensures
            r@ == self@,
    {
        proof {
            use_type_invariant(self);
        }
        let gaps = self.gaps.clone();
        proof {
            assert(gaps@ == self.gaps@);
        }
        PrimeIter { pos: self.pos, gaps }
    }
}

} // verus!
