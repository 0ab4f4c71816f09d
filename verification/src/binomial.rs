//! Binomial coefficients, and through them Fermat's little theorem for the
//! base two: a prime `p` divides `2^p − 2`.
use crate::divisibility::{
    divides, lemma_divides_multiple, lemma_divides_sum, lemma_remainder_from_difference,
};
use crate::prime_facts::{lemma_not_divisible_below, lemma_prime_divides_product};
use crate::primes::is_prime;
use vstd::arithmetic::power::{lemma_pow0, lemma_pow_positive, pow};
use vstd::prelude::*;

verus! {

/// The number of ways to choose `k` things out of `n`, by Pascal's rule.
pub open spec fn binomial(n: nat, k: nat) -> int
    decreases n,
{
    if k == 0 {
        1
    } else if n == 0 {
        0
    } else {
        binomial((n - 1) as nat, (k - 1) as nat) + binomial((n - 1) as nat, k)
    }
}

/// The sum of the binomial coefficients of `n` from the zeroth to the `k`th.
pub open spec fn row_sum(n: nat, k: nat) -> int
    decreases k,
{
    if k == 0 {
        1
    } else {
        row_sum(n, (k - 1) as nat) + binomial(n, k)
    }
}

/// No binomial coefficient is negative.
pub proof fn lemma_binomial_nonnegative(n: nat, k: nat)
    ensures
        binomial(n, k) >= 0,
    decreases n,
{
    if k != 0 && n != 0 {
        lemma_binomial_nonnegative((n - 1) as nat, (k - 1) as nat);
        lemma_binomial_nonnegative((n - 1) as nat, k);
    }
}

/// There is no way to choose more than there is.
pub proof fn lemma_binomial_beyond(n: nat, k: nat)
    requires
        k > n,
    ensures
        binomial(n, k) == 0,
    decreases n,
{
    if n != 0 {
        lemma_binomial_beyond((n - 1) as nat, (k - 1) as nat);
        lemma_binomial_beyond((n - 1) as nat, k);
    }
}

/// There is one way to choose everything.
pub proof fn lemma_binomial_full(n: nat)
    ensures
        binomial(n, n) == 1,
    decreases n,
{
    if n != 0 {
        lemma_binomial_full((n - 1) as nat);
        lemma_binomial_beyond((n - 1) as nat, n);
    }
}

/// Pascal's rule, summed along a row.
pub proof fn lemma_row_sum_pascal(n: nat, k: nat)
    ensures
        row_sum(n + 1, k + 1) == row_sum(n, k) + row_sum(n, k + 1),
    decreases k,
{
    assert(binomial(n + 1, k + 1) == binomial(n, k) + binomial(n, k + 1));
    assert(row_sum(n + 1, k + 1) == row_sum(n + 1, k) + binomial(n + 1, k + 1));
    assert(row_sum(n, k + 1) == row_sum(n, k) + binomial(n, k + 1));
    if k > 0 {
        lemma_row_sum_pascal(n, (k - 1) as nat);
        assert(row_sum(n, k) == row_sum(n, (k - 1) as nat) + binomial(n, k));
    } else {
        assert(row_sum(n + 1, 0) == 1);
        assert(row_sum(n, 0) == 1);
        assert(binomial(n, 0) == 1);
    }
}

/// A whole row sums to a power of two.
pub proof fn lemma_row_sum_is_power(n: nat)
    ensures
        row_sum(n, n) == pow(2, n),
    decreases n,
{
    if n == 0 {
        lemma_pow0(2);
    } else {
        let m = (n - 1) as nat;
        lemma_row_sum_is_power(m);
        lemma_row_sum_pascal(m, m);
        lemma_binomial_beyond(m, n);
        assert(row_sum(m, n) == row_sum(m, m) + binomial(m, n));
        assert(pow(2, n) == 2 * pow(2, m)) by {
            vstd::arithmetic::power::lemma_pow_adds(2, 1, m);
            vstd::arithmetic::power::lemma_pow1(2);
        }
    }
}

/// `k` times the ways to choose `k` of `n` is `n` times the ways to choose
/// `k − 1` of `n − 1`.
pub proof fn lemma_absorption(n: nat, k: nat)
    requires
        n >= 1,
        k >= 1,
    ensures
        k * binomial(n, k) == n * binomial((n - 1) as nat, (k - 1) as nat),
    decreases n,
{
    let m = (n - 1) as nat;
    let j = (k - 1) as nat;
    let ni = n as int;
    let ki = k as int;
    assert(binomial(n, k) == binomial(m, j) + binomial(m, k));
    if n == 1 {
        if k == 1 {
            assert(binomial(0, 0) == 1);
            assert(binomial(0, 1) == 0);
        } else {
            assert(binomial(0, j) == 0);
            assert(binomial(0, k) == 0);
        }
        assert(ki * (binomial(m, j) + binomial(m, k)) == ni * binomial(m, j)) by (nonlinear_arith)
            requires
                ni == 1,
                binomial(m, k) == 0,
                ki == 1 || binomial(m, j) == 0,
        ;
    } else {
        let mm = (m - 1) as nat;
        lemma_absorption(m, k);
        // k * C(m, k) == m * C(mm, j)
        let x = binomial(m, j);
        let y = binomial(m, k);
        let z = binomial(mm, j);
        if k == 1 {
            assert(x == 1);
            assert(z == 1);
            assert(ki * (x + y) == ni * x) by (nonlinear_arith)
                requires
                    ki == 1,
                    x == 1,
                    z == 1,
                    ki * y == (ni - 1) * z,
            ;
        } else {
            let jj = (j - 1) as nat;
            lemma_absorption(m, j);
            // j * C(m, j) == m * C(mm, jj)
            let w = binomial(mm, jj);
            assert(x == w + z);
            assert(ki * (x + y) == ni * x) by (nonlinear_arith)
                requires
                    x == w + z,
                    ki * y == (ni - 1) * z,
                    (ki - 1) * x == (ni - 1) * w,
            ;
        }
    }
}

/// A prime divides its binomial coefficients, but for the first and the last.
pub proof fn lemma_prime_divides_binomial(p: nat, k: nat)
    requires
        is_prime(p),
        0 < k < p,
    ensures
        divides(p as int, binomial(p, k)),
{
    lemma_absorption(p, k);
    lemma_binomial_nonnegative(p, k);
    lemma_divides_multiple(p as int, binomial((p - 1) as nat, (k - 1) as nat));
    lemma_prime_divides_product(p, k as int, binomial(p, k));
    lemma_not_divisible_below(p, k);
}

/// Short of its last term, the row of a prime sums to one more than a
/// multiple of the prime.
pub proof fn lemma_prime_row(p: nat, k: nat)
    requires
        is_prime(p),
        k < p,
    ensures
        divides(p as int, row_sum(p, k) - 1),
    decreases k,
{
    if k == 0 {
        lemma_divides_multiple(p as int, 0);
    } else {
        lemma_prime_row(p, (k - 1) as nat);
        lemma_prime_divides_binomial(p, k);
        lemma_divides_sum(p as int, row_sum(p, (k - 1) as nat) - 1, binomial(p, k));
    }
}

/// Fermat's little theorem for the base two: a prime `p` divides `2^p − 2`.
pub proof fn lemma_fermat_two(p: nat)
    requires
        is_prime(p),
    ensures
        divides(p as int, pow(2, p) - 2),
{
    let before = (p - 1) as nat;
    lemma_row_sum_is_power(p);
    lemma_binomial_full(p);
    lemma_prime_row(p, before);
    assert(row_sum(p, p) == row_sum(p, before) + binomial(p, p));
}

/// For an odd prime `p`, two to the power `p − 1` leaves the remainder one on
/// division by `p`.
pub proof fn lemma_fermat_two_reduced(p: nat)
    requires
        is_prime(p),
        p > 2,
    ensures
        pow(2, (p - 1) as nat) % (p as int) == 1,
{
    let before = (p - 1) as nat;
    let x = pow(2, before);
    lemma_fermat_two(p);
    lemma_pow_positive(2, before);
    assert(pow(2, p) == 2 * x) by {
        vstd::arithmetic::power::lemma_pow_adds(2, 1, before);
        vstd::arithmetic::power::lemma_pow1(2);
    }
    assert(2 * (x - 1) == pow(2, p) - 2);
    lemma_prime_divides_product(p, 2, x - 1);
    lemma_not_divisible_below(p, 2);
    lemma_remainder_from_difference(x, 1, p as int);
}

} // verus!
