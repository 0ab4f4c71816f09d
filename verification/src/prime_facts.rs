//! What follows from primality: every number above one has a prime factor,
//! and a prime that divides a product divides one of the two.
use crate::divisibility::{
    divides, lemma_divides_multiple, lemma_divides_product, lemma_divides_sum,
    lemma_divides_transitive,
};
use crate::primes::is_prime;
use vstd::arithmetic::div_mod::{lemma_fundamental_div_mod, lemma_small_mod};
use vstd::prelude::*;

verus! {

/// The least divisor of `m` that is at least `d`, for `d` up to `m`.
pub open spec fn least_factor_from(m: nat, d: nat) -> nat
    decreases m - d,
{
    if d >= m || d < 1 {
        m
    } else if m % d == 0 {
        d
    } else {
        least_factor_from(m, d + 1)
    }
}

/// The least divisor of `m` above one.
pub open spec fn least_factor(m: nat) -> nat {
    least_factor_from(m, 2)
}

/// `least_factor_from` finds a divisor of `m`, and skips none.
pub proof fn lemma_least_factor_from(m: nat, d: nat)
    requires
        2 <= d <= m,
    ensures
        d <= least_factor_from(m, d) <= m,
        m % least_factor_from(m, d) == 0,
        forall|c: nat| d <= c < least_factor_from(m, d) ==> #[trigger] (m % c) != 0,
    decreases m - d,
{
    if d >= m {
        lemma_divides_multiple(m as int, 1);
    } else if m % d != 0 {
        lemma_least_factor_from(m, d + 1);
    }
}

/// The least divisor above one of a number above one is a prime.
pub proof fn lemma_least_factor_is_prime(m: nat)
    requires
        m >= 2,
    ensures
        is_prime(least_factor(m)),
        divides(least_factor(m) as int, m as int),
        2 <= least_factor(m) <= m,
{
    let q = least_factor(m);
    lemma_least_factor_from(m, 2);
    assert forall|d: nat| 1 < d < q implies #[trigger] (q % d) != 0 by {
        if q % d == 0 {
            lemma_divides_transitive(d as int, q as int, m as int);
            assert(m % d == 0);
        }
    }
}

/// A positive number below `p` is no multiple of `p`.
pub proof fn lemma_not_divisible_below(p: nat, r: nat)
    requires
        0 < r < p,
    ensures
        !divides(p as int, r as int),
{
    lemma_small_mod(r, p);
}

/// Euclid's lemma: a prime that divides a product divides a factor.
pub proof fn lemma_prime_divides_product(p: nat, a: int, b: int)
    requires
        is_prime(p),
        a >= 0,
        divides(p as int, a * b),
    ensures
        divides(p as int, a) || divides(p as int, b),
    decreases a,
{
    let pi = p as int;
    let ai = a;
    let bi = b;
    if a == 0 {
        lemma_divides_multiple(pi, 0);
    } else if a >= p {
        let r = ai % pi;
        let k = ai / pi;
        lemma_fundamental_div_mod(ai, pi);
        assert(r * bi == ai * bi - pi * (k * bi)) by (nonlinear_arith)
            requires
                ai == pi * k + r,
        ;
        lemma_divides_multiple(pi, k * bi);
        lemma_divides_sum(pi, ai * bi, pi * (k * bi));
        lemma_prime_divides_product(p, r, b);
        if divides(pi, r) {
            if r > 0 {
                lemma_not_divisible_below(p, r as nat);
            }
            assert(ai == pi * k);
            lemma_divides_multiple(pi, k);
        }
    } else if a == 1 {
        assert(ai * bi == bi) by (nonlinear_arith)
            requires
                ai == 1,
        ;
    } else {
        let r = pi % ai;
        let k = pi / ai;
        assert(p % (a as nat) != 0);
        lemma_fundamental_div_mod(pi, ai);
        assert(r * bi == pi * bi - (ai * bi) * k) by (nonlinear_arith)
            requires
                pi == ai * k + r,
        ;
        lemma_divides_multiple(pi, bi);
        lemma_divides_product(pi, ai * bi, k);
        lemma_divides_sum(pi, pi * bi, (ai * bi) * k);
        lemma_prime_divides_product(p, r, b);
        lemma_not_divisible_below(p, r as nat);
    }
}

} // verus!
