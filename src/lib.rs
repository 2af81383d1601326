//! Deterministic primality testing, prime enumeration and factoring for all of `u64`.
//!
//! The primality oracle is a Miller-Rabin test with witness sets that are exhaustive for each
//! magnitude band; its verdict is stated exactly by [`oracle_prime`], and every prime is proved
//! to pass it. Factoring combines trial division by a wheel-based prime sequence with Pollard's
//! rho, and the derived functions (totient, Möbius, divisors) are computed from the result.
mod factor;
mod iter;
mod number_theory;
mod powers;
mod prime;
mod totient;
mod uniqueness;

pub use factor::{
    builds_divisor, divisor_count, divisor_of_exponents, euler_totient, exponents_within, factor,
    gcd, holds_value, is_factorization, lemma_built_divisor_divides, lemma_builds_divisor_step,
    lemma_gcd_divides, lemma_totient_bounded, mobius, mobius_of, totient_of, PrimeFactorization,
};
pub use iter::{
    coprime_to_wheel, is_gap_table, is_wheel_gap, lemma_primes_in_sequence, sequence_prime,
    step_after, wheel_candidate, CertIter, PrimeIter,
};
pub use number_theory::{binom, binom_sum, lemma_euclid, lemma_fermat, lemma_square_roots_of_one};
pub use powers::{exponent_of, is_power_list, keys_above, power_product, value_of};
pub use prime::{
    is_prime, is_strong_probable_prime, is_u64_prime, lemma_prime_is_strong_probable_prime,
    lemma_prime_passes_oracle, odd_part, oracle_prime, two_valuation, Prime, MAX_U64_PRIME,
};
pub use totient::{coprime, coprime_count, lemma_coprime_iff_gcd_one, lemma_totient_counts_coprimes};
pub use uniqueness::{
    lemma_divisors_are_built, lemma_prime_divides_value, lemma_semiprime_factorization,
    lemma_unique_factorization, prime_keys,
};
