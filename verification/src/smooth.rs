//! The exponent that the search accumulates, and what it says of the outcome.
use crate::divisibility::gcd;
use crate::primes::{is_prime, last_prime, prime_count};
use crate::report::FactorError;
use vstd::arithmetic::power::pow;
use vstd::math::abs;
use vstd::prelude::*;

verus! {

/// How many primes are examined between one checkpoint and the next.
pub const CHECKPOINT_INTERVAL: usize = 10000;

/// How many of the powers `p`, `p²`, `p³`, … do not exceed `b`.
pub open spec fn power_count(p: nat, b: nat) -> nat
    decreases b,
{
    if p < 2 || b < p {
        0
    } else {
        proof {
            assert(b / p < b) by (nonlinear_arith)
                requires
                    p >= 2,
                    b >= p,
            ;
        }
        1 + power_count(p, b / p)
    }
}

/// The largest power of `p` that does not exceed `b`, for `b` at least one.
pub open spec fn top_power(p: nat, b: nat) -> nat {
    pow(p as int, power_count(p, b)) as nat
}

/// The product, over the primes `p` up to `q`, of the largest power of `p`
/// that does not exceed `b`.
pub open spec fn smooth_exponent(q: nat, b: nat) -> nat
    decreases q,
{
    if q < 2 {
        1
    } else {
        smooth_exponent((q - 1) as nat, b) * (if is_prime(q) {
            top_power(q, b)
        } else {
            1
        })
    }
}

/// The accumulator once the exponent `e` has been folded into it: two at the
/// start, and from then on two to the power `e`, reduced modulo `n`.
pub open spec fn accumulated(n: nat, e: nat) -> nat {
    if e == 1 {
        2
    } else {
        (pow(2, e) % (n as int)) as nat
    }
}

/// The candidate factor at exponent `e`: the greatest common divisor of `n`
/// and the accumulator less one.
pub open spec fn candidate(n: nat, e: nat) -> nat {
    gcd(abs(accumulated(n, e) - 1), n)
}

/// What a checkpoint decides on the candidate `g`, the prime `q` having been
/// examined last: the bound is too large where the candidate is `n`, the
/// candidate is a factor where it is neither `n` nor one, and the sweep goes
/// on where it is one.
pub open spec fn checkpoint_decision(g: nat, n: nat, q: nat) -> Option<Result<nat, FactorError>> {
    if g == n {
        Some(Err(FactorError::BoundTooLarge(q as usize)))
    } else if g != 1 {
        Some(Ok(g))
    } else {
        None
    }
}

/// What the check after the last prime decides on the candidate `g`, the
/// prime `last` having been examined last: the bound is too small where the
/// candidate is one, too large where it is `n`, and the candidate is a factor
/// otherwise.
pub open spec fn final_decision(g: nat, n: nat, last: nat) -> Result<nat, FactorError> {
    if g == 1 {
        Err(FactorError::BoundTooSmall)
    } else if g == n {
        Err(FactorError::BoundTooLarge(last as usize))
    } else {
        Ok(g)
    }
}

/// What the checkpoint after the prime `q` decides, if `q` is a prime after
/// which a checkpoint falls.
pub open spec fn checkpoint_verdict(n: nat, b: nat, q: nat) -> Option<Result<nat, FactorError>> {
    if is_prime(q) && prime_count(q) % (CHECKPOINT_INTERVAL as nat) == 0 {
        checkpoint_decision(candidate(n, smooth_exponent(q, b)), n, q)
    } else {
        None
    }
}

/// The verdict of the first checkpoint up to `q` that decides anything.
pub open spec fn sweep(n: nat, b: nat, q: nat) -> Option<Result<nat, FactorError>>
    decreases q,
{
    if q < 2 {
        None
    } else {
        match sweep(n, b, (q - 1) as nat) {
            Some(verdict) => Some(verdict),
            None => checkpoint_verdict(n, b, q),
        }
    }
}

/// What the check after the last prime decides. The last prime is the
/// largest one within `b`.
pub open spec fn final_verdict(n: nat, b: nat) -> Result<nat, FactorError> {
    final_decision(candidate(n, smooth_exponent(b, b)), n, last_prime(b))
}

/// The outcome of the search for a factor of `n` with the bound `b`: the
/// verdict of the first checkpoint that decides, else that of the final check.
pub open spec fn outcome(n: nat, b: nat) -> Result<nat, FactorError> {
    match sweep(n, b, b) {
        Some(verdict) => verdict,
        None => final_verdict(n, b),
    }
}

/// The largest power of a prime within the bound is at least the prime.
pub proof fn lemma_top_power_bounds(p: nat, b: nat)
    requires
        2 <= p <= b,
    ensures
        power_count(p, b) >= 1,
        top_power(p, b) >= p,
{
    let k = power_count(p, b);
    assert(k == 1 + power_count(p, b / p));
    vstd::arithmetic::power::lemma_pow1(p as int);
    vstd::arithmetic::power::lemma_pow_increases(p, 1, k);
}

/// The exponent is a positive number.
pub proof fn lemma_smooth_exponent_positive(q: nat, b: nat)
    ensures
        smooth_exponent(q, b) >= 1,
    decreases q,
{
    if q >= 2 {
        lemma_smooth_exponent_positive((q - 1) as nat, b);
        let e = smooth_exponent((q - 1) as nat, b);
        let t: nat = if is_prime(q) {
            top_power(q, b)
        } else {
            1
        };
        if is_prime(q) {
            vstd::arithmetic::power::lemma_pow_positive(q as int, power_count(q, b));
        }
        assert(e * t >= 1) by (nonlinear_arith)
            requires
                e >= 1,
                t >= 1,
        ;
    }
}

/// Where no number above `low` and up to `high` is prime, nothing happens
/// between the two: the exponent, the last prime and the checkpoints' verdict
/// stay.
pub proof fn lemma_gap(n: nat, b: nat, low: nat, high: nat)
    requires
        low <= high,
        forall|q: nat| low < q <= high ==> !is_prime(q),
    ensures
        smooth_exponent(high, b) == smooth_exponent(low, b),
        prime_count(high) == prime_count(low),
        last_prime(high) == last_prime(low),
        sweep(n, b, high) == sweep(n, b, low),
    decreases high,
{
    if low < high {
        lemma_gap(n, b, low, (high - 1) as nat);
        assert(!is_prime(high));
        if high >= 2 {
            assert(smooth_exponent(high, b) == smooth_exponent((high - 1) as nat, b) * 1);
        }
    }
}

/// Once a checkpoint has decided, later checkpoints change nothing.
pub proof fn lemma_sweep_settled(n: nat, b: nat, low: nat, high: nat)
    requires
        low <= high,
        sweep(n, b, low) is Some,
    ensures
        sweep(n, b, high) == sweep(n, b, low),
    decreases high,
{
    if low < high {
        lemma_sweep_settled(n, b, low, (high - 1) as nat);
    }
}

/// Raising the accumulator to the power `t` multiplies its exponent by `t`.
pub proof fn lemma_accumulate(n: nat, e: nat, t: nat)
    requires
        n > 0,
        e >= 1,
        t >= 2,
    ensures
        accumulated(n, e * t) == pow(accumulated(n, e) as int, t) % (n as int),
{
    assert(e * t >= 2) by (nonlinear_arith)
        requires
            e >= 1,
            t >= 2,
    ;
    if e == 1 {
        assert(e * t == t) by (nonlinear_arith)
            requires
                e == 1,
        ;
    } else {
        vstd::arithmetic::power::lemma_pow_mod_noop(pow(2, e), t, n as int);
        vstd::arithmetic::power::lemma_pow_multiplies(2, e, t);
    }
}

} // verus!
