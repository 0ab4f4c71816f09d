//! Powersmooth numbers: a number all of whose prime powers lie within a
//! bound divides the exponent that the search accumulates for that bound.
use crate::divisibility::{
    divides, lemma_divides_cancel, lemma_divides_multiple,
    lemma_divides_product, lemma_divides_quotient, lemma_divides_scale, lemma_divides_transitive,
};
use crate::prime_facts::{lemma_least_factor_is_prime, lemma_prime_divides_product, least_factor};
use crate::primes::is_prime;
use crate::smooth::{power_count, smooth_exponent, top_power};
use vstd::arithmetic::power::{
    lemma_pow0, lemma_pow1, lemma_pow_adds, lemma_pow_increases, lemma_pow_positive, pow,
};
use vstd::prelude::*;

verus! {

/// A number is `b`-powersmooth when every prime power that divides it exactly,
/// that is every `q^k` that divides it while `q^(k+1)` does not, is at most
/// `b`.
pub open spec fn is_powersmooth(m: nat, b: nat) -> bool {
    forall|q: nat, k: nat|
        is_prime(q) && k >= 1 && #[trigger] divides(pow(q as int, k), m as int) && !divides(
            pow(q as int, (k + 1) as nat),
            m as int,
        ) ==> pow(q as int, k) <= b
}

/// Every power of a prime that divides `m` is at most `b`.
pub open spec fn prime_powers_within(m: nat, b: nat) -> bool {
    forall|q: nat, k: nat|
        is_prime(q) && k >= 1 && #[trigger] divides(pow(q as int, k), m as int) ==> pow(
            q as int,
            k,
        ) <= b
}

/// How many times `q` divides `m`.
pub open spec fn multiplicity(q: nat, m: nat) -> nat
    decreases m,
{
    if q < 2 || m == 0 || m % q != 0 {
        0
    } else {
        proof {
            assert(m / q < m) by (nonlinear_arith)
                requires
                    q >= 2,
                    m >= 1,
            ;
        }
        1 + multiplicity(q, m / q)
    }
}

/// The next power of `q` is `q` times this one.
pub proof fn lemma_pow_step(q: nat, k: nat)
    ensures
        pow(q as int, k + 1) == q * pow(q as int, k),
{
    lemma_pow_adds(q as int, 1, k);
    lemma_pow1(q as int);
}

/// `q` to the multiplicity of `q` in `m` divides `m`, and the next power of
/// `q` does not.
pub proof fn lemma_multiplicity(q: nat, m: nat)
    requires
        q >= 2,
        m >= 1,
    ensures
        divides(pow(q as int, multiplicity(q, m)), m as int),
        !divides(pow(q as int, multiplicity(q, m) + 1), m as int),
    decreases m,
{
    let qi = q as int;
    if m % q != 0 {
        lemma_pow0(qi);
        lemma_pow1(qi);
        lemma_divides_multiple(1, m as int);
    } else {
        let rest = m / q;
        let e = multiplicity(q, rest);
        assert(m == q * rest) by {
            lemma_divides_quotient(qi, m as int);
        }
        assert(rest >= 1 && rest < m) by (nonlinear_arith)
            requires
                m == q * rest,
                q >= 2,
                m >= 1,
        ;
        lemma_multiplicity(q, rest);
        lemma_pow_step(q, e);
        lemma_pow_step(q, e + 1);
        lemma_pow_positive(qi, e);
        lemma_pow_positive(qi, e + 1);
        lemma_divides_scale(qi, pow(qi, e), rest as int);
        if divides(pow(qi, e + 2), m as int) {
            lemma_divides_cancel(qi, pow(qi, e + 1), rest as int);
        }
    }
}

/// No power of `q` beyond its multiplicity in `m` divides `m`.
pub proof fn lemma_multiplicity_is_most(q: nat, m: nat, k: nat)
    requires
        q >= 2,
        m >= 1,
        divides(pow(q as int, k), m as int),
    ensures
        k <= multiplicity(q, m),
    decreases k,
{
    let qi = q as int;
    if k > 0 {
        let j = (k - 1) as nat;
        lemma_pow_step(q, j);
        lemma_pow_positive(qi, j);
        lemma_divides_multiple(qi, pow(qi, j));
        lemma_divides_transitive(qi, pow(qi, k), m as int);
        let rest = m / q;
        assert(m == q * rest) by {
            lemma_divides_quotient(qi, m as int);
        }
        assert(rest >= 1) by (nonlinear_arith)
            requires
                m == q * rest,
                q >= 2,
                m >= 1,
        ;
        lemma_divides_cancel(qi, pow(qi, j), rest as int);
        lemma_multiplicity_is_most(q, rest, j);
    }
}

/// In a powersmooth number every power of a prime that divides it lies
/// within the bound, not only the exact ones.
pub proof fn lemma_powersmooth_all_powers(m: nat, b: nat)
    requires
        m >= 1,
        is_powersmooth(m, b),
    ensures
        prime_powers_within(m, b),
{
    assert forall|q: nat, k: nat|
        is_prime(q) && k >= 1 && #[trigger] divides(pow(q as int, k), m as int) implies pow(
        q as int,
        k,
    ) <= b by {
        let e = multiplicity(q, m);
        lemma_multiplicity(q, m);
        lemma_multiplicity_is_most(q, m, k);
        lemma_pow_increases(q, k, e);
        assert(divides(pow(q as int, e), m as int));
    }
}

/// A power of `q` within `b` has an exponent that `power_count` reaches.
pub proof fn lemma_power_count_covers(q: nat, b: nat, k: nat)
    requires
        q >= 2,
        pow(q as int, k) <= b,
    ensures
        k <= power_count(q, b),
    decreases k,
{
    if k > 0 {
        let j = (k - 1) as nat;
        let x = pow(q as int, j);
        lemma_pow_step(q, j);
        lemma_pow_positive(q as int, j);
        assert(b >= q && x <= (b as int) / (q as int)) by (nonlinear_arith)
            requires
                q * x <= b,
                x >= 1,
                q >= 2,
        ;
        lemma_power_count_covers(q, b / q, j);
    }
}

/// The largest power within `b` of a prime up to `top` divides the exponent
/// accumulated up to `top`.
pub proof fn lemma_top_power_divides_exponent(q: nat, top: nat, b: nat)
    requires
        is_prime(q),
        q <= top,
    ensures
        divides(top_power(q, b) as int, smooth_exponent(top, b) as int),
    decreases top,
{
    let t = top_power(q, b) as int;
    lemma_pow_positive(q as int, power_count(q, b));
    let below = smooth_exponent((top - 1) as nat, b) as int;
    if top == q {
        lemma_divides_multiple(t, below);
    } else {
        lemma_top_power_divides_exponent(q, (top - 1) as nat, b);
        let f: int = if is_prime(top) {
            top_power(top, b) as int
        } else {
            1
        };
        if is_prime(top) {
            lemma_pow_positive(top as int, power_count(top, b));
        }
        lemma_divides_product(t, below, f);
        assert(smooth_exponent(top, b) == below * f) by (nonlinear_arith)
            requires
                smooth_exponent(top, b) == (below as nat) * (f as nat),
                below >= 0,
                f >= 0,
        ;
    }
}

/// A power of a prime that divides a product with a number that the prime
/// does not divide, divides the other factor.
pub proof fn lemma_prime_power_cancel(q: nat, e: nat, x: int, t: int)
    requires
        is_prime(q),
        x >= 0,
        t >= 0,
        !divides(q as int, x),
        divides(pow(q as int, e), x * t),
    ensures
        divides(pow(q as int, e), t),
    decreases e,
{
    let qi = q as int;
    if e == 0 {
        lemma_pow0(qi);
        lemma_divides_multiple(1, t);
    } else {
        let j = (e - 1) as nat;
        let below = pow(qi, j);
        lemma_pow_step(q, j);
        lemma_pow_positive(qi, j);
        lemma_divides_multiple(qi, below);
        lemma_divides_transitive(qi, pow(qi, e), x * t);
        lemma_prime_divides_product(q, x, t);
        lemma_divides_quotient(qi, t);
        let rest = t / qi;
        assert(x * t == qi * (x * rest) && rest >= 0) by (nonlinear_arith)
            requires
                t == qi * rest,
                t >= 0,
                qi >= 2,
        ;
        lemma_divides_cancel(qi, below, x * rest);
        lemma_prime_power_cancel(q, j, x, rest);
        lemma_divides_scale(qi, below, rest);
    }
}

/// A number all of whose prime powers lie within `b` divides the exponent
/// accumulated for `b`.
pub proof fn lemma_within_divides_exponent(m: nat, b: nat)
    requires
        m >= 1,
        prime_powers_within(m, b),
    ensures
        divides(m as int, smooth_exponent(b, b) as int),
    decreases m,
{
    let exponent = smooth_exponent(b, b) as int;
    if m == 1 {
        lemma_divides_multiple(1, exponent);
    } else {
        let q = least_factor(m);
        let qi = q as int;
        lemma_least_factor_is_prime(m);
        lemma_pow1(qi);
        lemma_multiplicity_is_most(q, m, 1);
        lemma_multiplicity(q, m);
        let e = multiplicity(q, m);
        let power = pow(qi, e);
        lemma_pow_positive(qi, e);
        lemma_pow_increases(q, 1, e);
        lemma_pow_step(q, e);
        lemma_divides_quotient(power, m as int);
        let rest = m as int / power;
        assert(rest >= 1 && rest < m) by (nonlinear_arith)
            requires
                m == power * rest,
                power >= 2,
                m >= 1,
        ;
        if divides(qi, rest) {
            lemma_divides_scale(power, qi, rest);
            assert(power * qi == qi * power) by (nonlinear_arith);
        }
        assert forall|r: nat, k: nat|
            is_prime(r) && k >= 1 && #[trigger] divides(
                pow(r as int, k),
                rest as nat as int,
            ) implies pow(r as int, k) <= b by {
            lemma_divides_multiple(rest, power);
            lemma_divides_transitive(pow(r as int, k), rest, m as int);
        }
        lemma_within_divides_exponent(rest as nat, b);
        lemma_divides_quotient(rest, exponent);
        let t = exponent / rest;
        assert(divides(power, m as int));
        lemma_power_count_covers(q, b, e);
        let most = power_count(q, b);
        lemma_pow_adds(qi, e, (most - e) as nat);
        lemma_divides_multiple(power, pow(qi, (most - e) as nat));
        lemma_pow_positive(qi, most);
        lemma_top_power_divides_exponent(q, b, b);
        lemma_divides_transitive(power, top_power(q, b) as int, exponent);
        assert(t >= 0) by (nonlinear_arith)
            requires
                exponent == rest * t,
                exponent >= 0,
                rest >= 1,
        ;
        lemma_prime_power_cancel(q, e, rest, t);
        lemma_divides_quotient(power, t);
        let s = t / power;
        assert(exponent == m * s) by (nonlinear_arith)
            requires
                exponent == rest * t,
                t == power * s,
                m == power * rest,
        ;
        lemma_divides_multiple(m as int, s);
    }
}

/// A `b`-powersmooth number divides the exponent accumulated for `b`.
pub proof fn lemma_powersmooth_divides_exponent(m: nat, b: nat)
    requires
        m >= 1,
        is_powersmooth(m, b),
    ensures
        divides(m as int, smooth_exponent(b, b) as int),
{
    lemma_powersmooth_all_powers(m, b);
    lemma_within_divides_exponent(m, b);
}

} // verus!
