//! What holds of every search: the laws that the contracts of `factor` and
//! `stage_one` give rise to.
use crate::binomial::lemma_fermat_two_reduced;
use crate::congruence::{
    lemma_candidate_covers, lemma_candidate_grows, lemma_covered_divisor, lemma_exponent_grows,
    lemma_exponent_multiple,
};
use crate::divisibility::{
    divides, gcd, lemma_difference_from_remainder, lemma_divides_bound, lemma_divides_multiple,
    lemma_gcd_divides, lemma_remainder_from_difference,
};
use crate::factor::reports;
use crate::natural::Natural;
use crate::powersmooth::{is_powersmooth, lemma_powersmooth_divides_exponent};
use crate::primes::{is_prime, last_prime, lemma_last_prime, prime_count};
use crate::report::FactorError;
use crate::smooth::{
    accumulated, candidate, checkpoint_verdict, final_verdict, lemma_gap,
    lemma_smooth_exponent_positive,
    lemma_sweep_settled, lemma_top_power_bounds, outcome, power_count, smooth_exponent, sweep,
    top_power, CHECKPOINT_INTERVAL,
};
use vstd::arithmetic::div_mod::lemma_small_mod;
use vstd::arithmetic::power::pow;
use vstd::math::abs;
use vstd::prelude::*;

verus! {

/// Whether a verdict is a factor.
pub open spec fn is_factor(verdict: Result<nat, FactorError>) -> bool {
    verdict is Ok
}

/// Whether a verdict is that the bound is too small.
pub open spec fn is_too_small(verdict: Result<nat, FactorError>) -> bool {
    verdict == Err::<nat, FactorError>(FactorError::BoundTooSmall)
}

/// Whether a verdict is that the bound is too large, at a checkpoint or at
/// the end.
pub open spec fn is_too_large(verdict: Result<nat, FactorError>) -> bool {
    match verdict {
        Err(FactorError::BoundTooLarge(_)) => true,
        _ => false,
    }
}

/// The prime after which the first deciding checkpoint up to `q` fell.
pub open spec fn deciding_prime(n: nat, b: nat, q: nat) -> nat
    decreases q,
{
    if q < 2 {
        0
    } else if sweep(n, b, (q - 1) as nat) is Some {
        deciding_prime(n, b, (q - 1) as nat)
    } else {
        q
    }
}

/// Where a checkpoint up to `q` decided, it is the one after
/// `deciding_prime`, and the sweep's verdict is that checkpoint's.
pub proof fn lemma_deciding_prime(n: nat, b: nat, q: nat)
    requires
        sweep(n, b, q) is Some,
    ensures
        2 <= deciding_prime(n, b, q) <= q,
        checkpoint_verdict(n, b, deciding_prime(n, b, q)) == sweep(n, b, q),
    decreases q,
{
    if q >= 2 && sweep(n, b, (q - 1) as nat) is Some {
        lemma_deciding_prime(n, b, (q - 1) as nat);
    }
}

/// The greatest common divisor of zero and a number is the number; that of
/// one and a number is one.
pub proof fn lemma_gcd_of_zero_and_one(n: nat)
    ensures
        n > 0 ==> gcd(0, n) == n,
        gcd(1, n) == 1,
{
    if n > 0 {
        assert(gcd(0, n) == gcd(n, 0nat % n));
        assert(gcd(n, 0) == n);
    }
    lemma_gcd_divides(1, n);
    lemma_divides_bound(gcd(1, n) as int, 1);
}

/// A factor that the search returns is a proper divisor of `n`: it lies
/// strictly between one and `n` and divides `n` without remainder.
pub proof fn law_factor_is_proper_divisor(n: nat, b: nat)
    requires
        n > 0,
        outcome(n, b) is Ok,
    ensures
        1 < outcome(n, b)->Ok_0 < n,
        n % outcome(n, b)->Ok_0 == 0,
{
    if sweep(n, b, b) is Some {
        let c = deciding_prime(n, b, b);
        lemma_deciding_prime(n, b, b);
        lemma_smooth_exponent_positive(c, b);
        lemma_candidate_covers(n, smooth_exponent(c, b));
    } else {
        lemma_smooth_exponent_positive(b, b);
        lemma_candidate_covers(n, smooth_exponent(b, b));
    }
}

/// Where an odd prime `p` divides `n` and `p − 1` is `b`-powersmooth, `p`
/// divides the candidate at the end of the sweep, so the bound is not too
/// small.
pub proof fn law_smooth_factor_is_covered(n: nat, b: nat, p: nat)
    requires
        n > 0,
        is_prime(p),
        p > 2,
        divides(p as int, n as int),
        is_powersmooth((p - 1) as nat, b),
    ensures
        divides(p as int, candidate(n, smooth_exponent(b, b)) as int),
        !is_too_small(outcome(n, b)),
{
    let order = (p - 1) as nat;
    let exponent = smooth_exponent(b, b);
    lemma_smooth_exponent_positive(b, b);
    lemma_powersmooth_divides_exponent(order, b);
    lemma_fermat_two_reduced(p);
    lemma_small_mod(1, p);
    lemma_difference_from_remainder(pow(2, order), 1, p as int);
    lemma_exponent_multiple(p as int, order, exponent);
    lemma_covered_divisor(n, exponent, p as int);
    lemma_candidate_covers(n, exponent);
    lemma_divides_bound(p as int, candidate(n, exponent) as int);
    if sweep(n, b, b) is Some {
        lemma_deciding_prime(n, b, b);
    }
}

/// Where `n` has an odd prime factor `p` such that `p − 1` is
/// `b`-powersmooth, and the bound is not too large for `n`, the search
/// returns a proper divisor of `n`.
pub proof fn law_smooth_factor_is_found(n: nat, b: nat, p: nat)
    requires
        n > 0,
        is_prime(p),
        p > 2,
        divides(p as int, n as int),
        is_powersmooth((p - 1) as nat, b),
        !is_too_large(outcome(n, b)),
    ensures
        outcome(n, b) is Ok,
        1 < outcome(n, b)->Ok_0 < n,
        n % outcome(n, b)->Ok_0 == 0,
{
    law_smooth_factor_is_covered(n, b, p);
    law_factor_is_proper_divisor(n, b);
}

/// The search has no randomness: two results of `factor` for the same number
/// and bound are the same factor, or the same words.
pub proof fn law_factor_is_deterministic(
    n: nat,
    b: nat,
    first: Result<Natural, String>,
    second: Result<Natural, String>,
)
    requires
        reports(first, outcome(n, b)),
        reports(second, outcome(n, b)),
    ensures
        match (first, second) {
            (Ok(x), Ok(y)) => x@ == y@,
            (Err(s), Err(t)) => s@ == t@,
            _ => false,
        },
{
}

/// A bound below two covers no prime, and is too small for every number.
pub proof fn law_no_primes_is_too_small(n: nat, b: nat)
    requires
        b < 2,
    ensures
        is_too_small(outcome(n, b)),
{
    lemma_gcd_of_zero_and_one(n);
    assert(smooth_exponent(b, b) == 1);
    assert(abs(2 - 1) == 1);
}

/// For a number above one, the bound is too small exactly when the candidate
/// at the end of the sweep is one, that is when two to the accumulated
/// exponent is one modulo no divisor of `n` but one.
pub proof fn law_too_small_means_trivial_candidate(n: nat, b: nat)
    requires
        n > 1,
    ensures
        is_too_small(outcome(n, b)) <==> candidate(n, smooth_exponent(b, b)) == 1,
{
    if sweep(n, b, b) is Some {
        let c = deciding_prime(n, b, b);
        lemma_deciding_prime(n, b, b);
        lemma_exponent_grows(c, b, b);
        lemma_candidate_grows(n, smooth_exponent(c, b), smooth_exponent(b, b));
        lemma_candidate_covers(n, smooth_exponent(c, b));
        if candidate(n, smooth_exponent(b, b)) == 1 {
            lemma_divides_bound(candidate(n, smooth_exponent(c, b)) as int, 1);
        }
    }
}

/// No checkpoint falls before the first `CHECKPOINT_INTERVAL` primes have
/// been examined.
pub proof fn lemma_quiet_start(n: nat, b: nat, q: nat)
    requires
        prime_count(q) < CHECKPOINT_INTERVAL,
    ensures
        sweep(n, b, q) is None,
    decreases q,
{
    if q >= 2 {
        lemma_quiet_start(n, b, (q - 1) as nat);
    }
}

/// No checkpoint decides up to `q` where the candidate is one at every
/// checkpoint up to `q`.
pub proof fn lemma_quiet_sweep(n: nat, b: nat, q: nat)
    requires
        n > 1,
        forall|r: nat|
            r <= q && is_prime(r) && prime_count(r) % (CHECKPOINT_INTERVAL as nat) == 0
                ==> #[trigger] candidate(n, smooth_exponent(r, b)) == 1,
    ensures
        sweep(n, b, q) is None,
    decreases q,
{
    if q >= 2 {
        lemma_quiet_sweep(n, b, (q - 1) as nat);
        if is_prime(q) && prime_count(q) % (CHECKPOINT_INTERVAL as nat) == 0 {
            assert(candidate(n, smooth_exponent(q, b)) == 1);
        }
    }
}

/// The first checkpoint whose candidate is not one gives the outcome: the
/// candidate there is the factor that the search returns, unless it is `n`,
/// and the primes after that checkpoint are not examined.
pub proof fn law_first_deciding_checkpoint_is_the_outcome(n: nat, b: nat, c: nat)
    requires
        n > 1,
        is_prime(c),
        c <= b <= usize::MAX,
        prime_count(c) % (CHECKPOINT_INTERVAL as nat) == 0,
        candidate(n, smooth_exponent(c, b)) != 1,
        forall|r: nat|
            r < c && is_prime(r) && prime_count(r) % (CHECKPOINT_INTERVAL as nat) == 0
                ==> #[trigger] candidate(n, smooth_exponent(r, b)) == 1,
    ensures
        candidate(n, smooth_exponent(c, b)) != n ==> outcome(n, b) == Ok::<nat, FactorError>(
            candidate(n, smooth_exponent(c, b)),
        ),
        candidate(n, smooth_exponent(c, b)) == n ==> outcome(n, b) == Err::<nat, FactorError>(
            FactorError::BoundTooLarge(c as usize),
        ),
{
    lemma_quiet_sweep(n, b, (c - 1) as nat);
    lemma_sweep_settled(n, b, c, b);
}

/// Where two to the exponent accumulated at the first checkpoint is already
/// one modulo `n`, the search ends there with a bound too large, and names
/// the prime examined last.
pub proof fn law_wrapped_checkpoint_is_too_large(n: nat, b: nat, q: nat)
    requires
        n > 1,
        is_prime(q),
        q <= b <= usize::MAX,
        prime_count(q) == CHECKPOINT_INTERVAL,
        pow(2, smooth_exponent(q, b)) % (n as int) == 1,
    ensures
        outcome(n, b) == Err::<nat, FactorError>(FactorError::BoundTooLarge(q as usize)),
{
    let e = smooth_exponent(q, b);
    lemma_quiet_start(n, b, (q - 1) as nat);
    lemma_top_power_bounds(q, b);
    lemma_smooth_exponent_positive((q - 1) as nat, b);
    assert(e >= 2) by (nonlinear_arith)
        requires
            e == smooth_exponent((q - 1) as nat, b) * top_power(q, b),
            smooth_exponent((q - 1) as nat, b) >= 1,
            top_power(q, b) >= 2,
    ;
    lemma_gcd_of_zero_and_one(n);
    assert(accumulated(n, e) == 1);
    assert(candidate(n, e) == n);
    lemma_sweep_settled(n, b, q, b);
}

/// The exponent accumulated for a bound of two or more is at least two.
pub proof fn lemma_exponent_covers_two(b: nat)
    requires
        b >= 2,
    ensures
        smooth_exponent(b, b) >= 2,
{
    assert(is_prime(2));
    assert(smooth_exponent(1, b) == 1);
    assert(smooth_exponent(2, b) == smooth_exponent(1, b) * top_power(2, b));
    lemma_top_power_bounds(2, b);
    lemma_exponent_grows(2, b, b);
    lemma_divides_bound(smooth_exponent(2, b) as int, smooth_exponent(b, b) as int);
}

/// Where fewer primes than a checkpoint takes lie within the bound, and two
/// to the accumulated exponent is one modulo `n`, the search ends with a
/// bound too large, and names the largest prime within the bound: the prime
/// examined last.
pub proof fn law_wrapped_end_is_too_large(n: nat, b: nat)
    requires
        n > 1,
        2 <= b <= usize::MAX,
        prime_count(b) < CHECKPOINT_INTERVAL,
        pow(2, smooth_exponent(b, b)) % (n as int) == 1,
    ensures
        outcome(n, b) == Err::<nat, FactorError>(
            FactorError::BoundTooLarge(last_prime(b) as usize),
        ),
        is_prime(last_prime(b)),
        last_prime(b) <= b,
        forall|r: nat| last_prime(b) < r <= b ==> !is_prime(r),
{
    lemma_quiet_start(n, b, b);
    lemma_exponent_covers_two(b);
    lemma_gcd_of_zero_and_one(n);
    lemma_last_prime(b);
    assert(is_prime(2));
}

/// For a number above one, a bound too large means that two to the
/// accumulated exponent is one modulo `n`. The error names a prime within
/// the bound: the one after which the deciding checkpoint fell, or the
/// largest one within the bound where the end decided; and two to the
/// exponent accumulated up to that prime is one modulo `n`.
pub proof fn law_too_large_means_wrapped(n: nat, b: nat)
    requires
        n > 1,
        b <= usize::MAX,
        is_too_large(outcome(n, b)),
    ensures
        pow(2, smooth_exponent(b, b)) % (n as int) == 1,
        match outcome(n, b) {
            Err(FactorError::BoundTooLarge(q)) => is_prime(q as nat) && q <= b && pow(
                2,
                smooth_exponent(q as nat, b),
            ) % (n as int) == 1,
            _ => true,
        },
        sweep(n, b, b) is None ==> outcome(n, b) == Err::<nat, FactorError>(
            FactorError::BoundTooLarge(last_prime(b) as usize),
        ),
{
    let last = smooth_exponent(b, b);
    lemma_smooth_exponent_positive(b, b);
    lemma_candidate_covers(n, last);
    if sweep(n, b, b) is Some {
        let c = deciding_prime(n, b, b);
        let e = smooth_exponent(c, b);
        lemma_deciding_prime(n, b, b);
        lemma_exponent_grows(c, b, b);
        lemma_candidate_covers(n, e);
        lemma_candidate_grows(n, e, last);
        lemma_divides_bound(n as int, candidate(n, last) as int);
        lemma_remainder_from_difference(pow(2, e), 1, n as int);
    } else {
        if b < 2 {
            law_no_primes_is_too_small(n, b);
        }
        lemma_last_prime(b);
        assert(is_prime(2));
        lemma_gap(n, b, last_prime(b), b);
    }
    lemma_remainder_from_difference(pow(2, last), 1, n as int);
}

/// The checkpoints change when an outcome is detected, not its kind: the
/// search with checkpoints ends with a factor, a bound too small or a bound
/// too large exactly when the check at the end alone would, and a factor that
/// a checkpoint finds divides the one that the end would give.
///
/// Left out are the searches that a checkpoint stops before the exponent
/// outgrows `n`: those where a checkpoint finds a factor and the candidate at
/// the end is `n`, and those for the number one that reach a checkpoint.
pub proof fn law_checkpoints_keep_the_kind(n: nat, b: nat)
    requires
        n > 0,
        !(is_factor(outcome(n, b)) && is_too_large(final_verdict(n, b))),
        !(is_too_large(outcome(n, b)) && is_too_small(final_verdict(n, b))),
    ensures
        is_factor(outcome(n, b)) <==> is_factor(final_verdict(n, b)),
        is_too_small(outcome(n, b)) <==> is_too_small(final_verdict(n, b)),
        is_too_large(outcome(n, b)) <==> is_too_large(final_verdict(n, b)),
        is_factor(outcome(n, b)) ==> divides(
            outcome(n, b)->Ok_0 as int,
            final_verdict(n, b)->Ok_0 as int,
        ),
{
    let last = smooth_exponent(b, b);
    lemma_smooth_exponent_positive(b, b);
    lemma_candidate_covers(n, last);
    if sweep(n, b, b) is Some {
        let c = deciding_prime(n, b, b);
        let e = smooth_exponent(c, b);
        lemma_deciding_prime(n, b, b);
        lemma_exponent_grows(c, b, b);
        lemma_candidate_covers(n, e);
        lemma_candidate_grows(n, e, last);
        lemma_divides_bound(candidate(n, e) as int, candidate(n, last) as int);
    } else {
        lemma_divides_multiple(candidate(n, last) as int, 1);
    }
}

/// `top_power` is what its name says: the power of `p` that it gives does
/// not exceed `b`, and the next power of `p` does.
pub proof fn law_top_power_is_largest(p: nat, b: nat)
    requires
        p >= 2,
        b >= 1,
    ensures
        top_power(p, b) <= b < top_power(p, b) * p,
    decreases b,
{
    let pi = p as int;
    if b < p {
        vstd::arithmetic::power::lemma_pow0(pi);
    } else {
        let rest = b / p;
        let k = power_count(p, rest);
        let below = pow(pi, k);
        assert(rest >= 1 && p * rest <= b < p * (rest + 1)) by (nonlinear_arith)
            requires
                rest == b / p,
                b >= p,
                p >= 2,
        ;
        law_top_power_is_largest(p, rest);
        vstd::arithmetic::power::lemma_pow_adds(pi, 1, k);
        vstd::arithmetic::power::lemma_pow1(pi);
        vstd::arithmetic::power::lemma_pow_positive(pi, k);
        assert(pi * below <= b && b < (pi * below) * pi) by (nonlinear_arith)
            requires
                below <= rest,
                rest + 1 <= below * pi,
                pi * rest <= b,
                b < pi * (rest + 1),
                pi >= 2,
        ;
    }
}

} // verus!
