//! How the candidate factor depends on the exponent: it holds exactly the
//! divisors of `n` modulo which two to the exponent is one, and it grows, by
//! divisibility, as the exponent does.
use crate::divisibility::{
    divides, lemma_divides_multiple, lemma_divides_product, lemma_divides_quotient,
    lemma_divides_sum, lemma_divides_transitive, lemma_gcd_divides, lemma_gcd_greatest,
    lemma_gcd_range,
};
use crate::primes::is_prime;
use crate::smooth::{accumulated, candidate, smooth_exponent, top_power};
use vstd::arithmetic::div_mod::lemma_fundamental_div_mod;
use vstd::arithmetic::power::{lemma_pow0, lemma_pow1, lemma_pow_adds, lemma_pow_multiplies, pow};
use vstd::math::abs;
use vstd::prelude::*;

verus! {

/// The accumulator differs from two to the exponent by a multiple of `n`.
pub proof fn lemma_accumulated_congruent(n: nat, e: nat)
    requires
        n > 0,
        e >= 1,
    ensures
        divides(n as int, accumulated(n, e) - pow(2, e)),
{
    let ni = n as int;
    if e == 1 {
        lemma_pow1(2);
        lemma_divides_multiple(ni, 0);
    } else {
        let x = pow(2, e);
        lemma_fundamental_div_mod(x, ni);
        assert(x % ni - x == ni * (-(x / ni))) by (nonlinear_arith)
            requires
                x == ni * (x / ni) + x % ni,
        ;
        lemma_divides_multiple(ni, -(x / ni));
    }
}

/// What divides a number divides its absolute value, and the other way round.
pub proof fn lemma_divides_abs(d: int, x: int)
    requires
        d > 0,
    ensures
        divides(d, x) <==> divides(d, abs(x) as int),
{
    if x < 0 {
        if divides(d, x) {
            lemma_divides_product(d, x, -1);
            assert(x * (-1) == -x);
        }
        if divides(d, -x) {
            lemma_divides_product(d, -x, -1);
            assert((-x) * (-1) == x);
        }
    }
}

/// The candidate is a divisor of `n`, between one and `n`, modulo which two
/// to the exponent is one.
pub proof fn lemma_candidate_covers(n: nat, e: nat)
    requires
        n > 0,
        e >= 1,
    ensures
        1 <= candidate(n, e) <= n,
        divides(candidate(n, e) as int, n as int),
        divides(candidate(n, e) as int, pow(2, e) - 1),
{
    let a = accumulated(n, e) as int;
    let g = candidate(n, e) as int;
    lemma_gcd_range(abs(a - 1), n);
    lemma_gcd_divides(abs(a - 1), n);
    lemma_divides_abs(g, a - 1);
    lemma_accumulated_congruent(n, e);
    lemma_divides_transitive(g, n as int, a - pow(2, e));
    lemma_divides_sum(g, a - 1, a - pow(2, e));
}

/// A divisor of `n` modulo which two to the exponent is one divides the
/// candidate.
pub proof fn lemma_covered_divisor(n: nat, e: nat, d: int)
    requires
        n > 0,
        e >= 1,
        divides(d, n as int),
        divides(d, pow(2, e) - 1),
    ensures
        divides(d, candidate(n, e) as int),
{
    let a = accumulated(n, e) as int;
    lemma_accumulated_congruent(n, e);
    lemma_divides_transitive(d, n as int, a - pow(2, e));
    lemma_divides_sum(d, a - pow(2, e), pow(2, e) - 1);
    lemma_divides_abs(d, a - 1);
    lemma_gcd_greatest(abs(a - 1), n, d);
}

/// Modulo `d`, a power of what is one is one.
pub proof fn lemma_power_of_one(d: int, x: int, t: nat)
    requires
        divides(d, x - 1),
    ensures
        divides(d, pow(x, t) - 1),
    decreases t,
{
    if t == 0 {
        lemma_pow0(x);
        lemma_divides_multiple(d, 0);
    } else {
        let j = (t - 1) as nat;
        let y = pow(x, j);
        lemma_power_of_one(d, x, j);
        lemma_pow_adds(x, 1, j);
        lemma_pow1(x);
        lemma_divides_product(d, y - 1, x);
        assert(pow(x, t) - 1 == (y - 1) * x + (x - 1)) by (nonlinear_arith)
            requires
                pow(x, t) == x * y,
        ;
        lemma_divides_sum(d, (y - 1) * x, x - 1);
    }
}

/// Where two to the power `e` is one modulo `d`, so is two to every multiple
/// of `e`.
pub proof fn lemma_exponent_multiple(d: int, e: nat, larger: nat)
    requires
        divides(d, pow(2, e) - 1),
        divides(e as int, larger as int),
    ensures
        divides(d, pow(2, larger) - 1),
{
    lemma_divides_quotient(e as int, larger as int);
    let t = larger as int / e as int;
    assert(t >= 0) by (nonlinear_arith)
        requires
            larger == e * t,
            e > 0,
    ;
    lemma_power_of_one(d, pow(2, e), t as nat);
    lemma_pow_multiplies(2, e, t as nat);
}

/// The candidate of an exponent divides the candidate of every multiple of
/// that exponent.
pub proof fn lemma_candidate_grows(n: nat, e: nat, larger: nat)
    requires
        n > 0,
        e >= 1,
        larger >= 1,
        divides(e as int, larger as int),
    ensures
        divides(candidate(n, e) as int, candidate(n, larger) as int),
{
    lemma_candidate_covers(n, e);
    lemma_exponent_multiple(candidate(n, e) as int, e, larger);
    lemma_covered_divisor(n, larger, candidate(n, e) as int);
}

/// The exponent accumulated up to `q` divides the one accumulated further.
pub proof fn lemma_exponent_grows(q: nat, later: nat, b: nat)
    requires
        q <= later,
    ensures
        smooth_exponent(q, b) >= 1,
        smooth_exponent(later, b) >= 1,
        divides(smooth_exponent(q, b) as int, smooth_exponent(later, b) as int),
    decreases later,
{
    crate::smooth::lemma_smooth_exponent_positive(q, b);
    crate::smooth::lemma_smooth_exponent_positive(later, b);
    let e = smooth_exponent(q, b) as int;
    if q == later {
        lemma_divides_multiple(e, 1);
    } else {
        lemma_exponent_grows(q, (later - 1) as nat, b);
        let below = smooth_exponent((later - 1) as nat, b) as int;
        let f: nat = if is_prime(later) {
            top_power(later, b)
        } else {
            1
        };
        assert(smooth_exponent(later, b) == below * f) by (nonlinear_arith)
            requires
                smooth_exponent(later, b) == (below as nat) * f,
                below >= 0,
        ;
        lemma_divides_product(e, below, f as int);
    }
}

} // verus!
