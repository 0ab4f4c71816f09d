//! Stage one of Pollard's p − 1 method.
use crate::divisibility::{gcd, lemma_gcd_divides, lemma_gcd_range};
use crate::laws::{law_factor_is_proper_divisor, law_no_primes_is_too_small};
use crate::natural::Natural;
use crate::primes::{
    first_prime_from, is_prime, last_prime, lemma_largest_word_is_composite,
    lemma_prime_count_bound, prime_count, sieve_limit, sieve_up_to,
};
use crate::report::FactorError;
use crate::smooth::{
    accumulated, checkpoint_decision, final_decision, lemma_accumulate, lemma_gap,
    lemma_smooth_exponent_positive, lemma_sweep_settled, lemma_top_power_bounds, outcome,
    power_count, smooth_exponent, sweep, top_power, CHECKPOINT_INTERVAL,
};
use vstd::arithmetic::power::{
    lemma_pow1, lemma_pow_adds, lemma_pow_mod_noop, lemma_pow_multiplies, lemma_pow_positive, pow,
};
use vstd::math::abs;
use vstd::prelude::*;

verus! {

/// Whether a result of the search is the outcome `verdict`.
pub open spec fn agrees(
    r: Result<Natural, FactorError>,
    verdict: Result<nat, FactorError>,
) -> bool {
    match r {
        Ok(d) => verdict == Ok::<nat, FactorError>(d@),
        Err(e) => verdict == Err::<nat, FactorError>(e),
    }
}

/// Whether a result of `factor` is the outcome `verdict`, the error in words.
pub open spec fn reports(r: Result<Natural, String>, verdict: Result<nat, FactorError>) -> bool {
    match r {
        Ok(d) => verdict == Ok::<nat, FactorError>(d@),
        Err(text) => verdict is Err && text@ == verdict->Err_0.text(),
    }
}

/// The accumulator raised to the largest power of the prime `p` within the
/// bound `b`, one exponentiation by `p` for each power of `p` up to `b`.
pub fn raise_to_top_power(a: Natural, p: usize, b: usize, n: &Natural) -> (r: Natural)
    requires
        n@ > 0,
        2 <= p <= b,
    ensures
        r@ == pow(a@ as int, top_power(p as nat, b as nat)) % (n@ as int),
{
    let ghost start = a@ as int;
    let ghost mut j: nat = 1;
    let mut a = a.pow_mod(p as u64, n);
    let mut room: usize = b / p;
    proof {
        lemma_pow1(p as int);
    }
    while room >= p
        invariant
            n@ > 0,
            p >= 2,
            j >= 1,
            pow(p as int, j) > 0,
            a@ == pow(start, pow(p as int, j) as nat) % (n@ as int),
            power_count(p as nat, b as nat) == j + power_count(p as nat, room as nat),
        decreases room,
    {
        let ghost reached = pow(p as int, j) as nat;
        a = a.pow_mod(p as u64, n);
        proof {
            lemma_pow_mod_noop(pow(start, reached), p as nat, n@ as int);
            lemma_pow_multiplies(start, reached, p as nat);
            lemma_pow_adds(p as int, j, 1);
            lemma_pow1(p as int);
            assert(pow(p as int, j + 1) == reached * p);
            lemma_pow_positive(p as int, j + 1);
            assert(room / p < room) by (nonlinear_arith)
                requires
                    p >= 2,
                    room >= p,
            ;
            j = j + 1;
        }
        room = room / p;
    }
    a
}

/// The candidate factor that an accumulator gives: the greatest common
/// divisor of `n` and the accumulator less one.
pub fn candidate_factor(a: &Natural, n: &Natural) -> (r: Natural)
    ensures
        r@ == gcd(abs(a@ - 1), n@),
        n@ > 0 ==> 1 <= r@ <= n@ && n@ % r@ == 0,
{
    proof {
        if n@ > 0 {
            lemma_gcd_range(abs(a@ - 1), n@);
            lemma_gcd_divides(abs(a@ - 1), n@);
        }
    }
    let one = Natural::from_u64(1);
    if a.is_zero() {
        one.gcd(n)
    } else {
        a.sub(&one).gcd(n)
    }
}

/// The decision of a checkpoint on the candidate `res`, after the prime
/// `last_prime`: an error where the candidate is `n`, the candidate itself
/// where it is a factor, and nothing where the sweep is to go on.
pub fn decide_at_checkpoint(res: Natural, n: &Natural, last_prime: usize) -> (r: Option<
    Result<Natural, FactorError>,
>)
    ensures
        match r {
            Some(verdict) => checkpoint_decision(res@, n@, last_prime as nat) is Some && agrees(
                verdict,
                checkpoint_decision(res@, n@, last_prime as nat)->Some_0,
            ),
            None => checkpoint_decision(res@, n@, last_prime as nat) is None,
        },
{
    if res.equals(n) {
        Some(Err(FactorError::BoundTooLarge(last_prime)))
    } else if !res.equals(&Natural::from_u64(1)) {
        Some(Ok(res))
    } else {
        None
    }
}

/// The decision of the check after the last prime, `last_prime`, on the
/// candidate `res`.
pub fn decide_at_end(res: Natural, n: &Natural, last_prime: usize) -> (r: Result<
    Natural,
    FactorError,
>)
    ensures
        agrees(r, final_decision(res@, n@, last_prime as nat)),
{
    if res.equals(&Natural::from_u64(1)) {
        Err(FactorError::BoundTooSmall)
    } else if res.equals(n) {
        Err(FactorError::BoundTooLarge(last_prime))
    } else {
        Ok(res)
    }
}

/// Stage one of the method: folds into an accumulator, which starts at two,
/// the largest power within `b` of every prime up to `b`, and looks at the
/// candidate factor after every `CHECKPOINT_INTERVAL` primes and at the end.
/// A bound found too large comes with the prime examined last.
pub fn stage_one(n: &Natural, b: usize) -> (r: Result<Natural, FactorError>)
    requires
        n@ > 0 || b < 2,
    ensures
        agrees(r, outcome(n@, b as nat)),
        r is Ok ==> 1 < r->Ok_0@ < n@ && n@ % r->Ok_0@ == 0,
{
    proof {
        if outcome(n@, b as nat) is Ok {
            if n@ == 0 {
                law_no_primes_is_too_small(n@, b as nat);
            }
            law_factor_is_proper_divisor(n@, b as nat);
        }
    }
    let mut a = Natural::from_u64(2);
    let mut last: usize = 0;
    let ghost mut covered: nat = 0;
    if b >= 2 {
        // the sieve reaches one further than the bound, so that every number
        // asked of it lies below its limit
        let limit = if b < usize::MAX {
            b + 1
        } else {
            b
        };
        let sieve = sieve_up_to(limit);
        let mut from: usize = 0;
        let mut count: usize = 0;
        let mut done = false;
        while !done
            invariant
                n@ > 0,
                b >= 2,
                sieve_limit(sieve) >= limit,
                limit == b + 1 || (limit == b && b == usize::MAX),
                from <= b,
                last == last_prime(covered),
                covered <= b,
                !done ==> from == covered + 1 || (from == 0 && covered == 0),
                done ==> covered == b,
                count == prime_count(covered),
                a@ == accumulated(n@, smooth_exponent(covered, b as nat)),
                sweep(n@, b as nat, covered) is None,
            decreases
                    b - covered + (if done {
                        0int
                    } else {
                        1int
                    }),
        {
            let found = if from < limit {
                first_prime_from(&sieve, from)
            } else {
                // only the largest machine integer is left, and it is no prime
                proof {
                    lemma_largest_word_is_composite();
                }
                None
            };
            let within = match found {
                Some(p) => p <= b,
                None => false,
            };
            if !within {
                proof {
                    assert forall|q: nat| covered < q <= b implies !is_prime(q) by {}
                    lemma_gap(n@, b as nat, covered, b as nat);
                    covered = b as nat;
                }
                done = true;
            } else {
                let p = found.unwrap();
                let ghost before = (p - 1) as nat;
                proof {
                    assert forall|q: nat| covered < q <= before implies !is_prime(q) by {}
                    lemma_gap(n@, b as nat, covered, before);
                    lemma_prime_count_bound(p as nat);
                }
                a = raise_to_top_power(a, p, b, n);
                count = count + 1;
                last = p;
                proof {
                    lemma_top_power_bounds(p as nat, b as nat);
                    lemma_smooth_exponent_positive(before, b as nat);
                    lemma_accumulate(
                        n@,
                        smooth_exponent(before, b as nat),
                        top_power(p as nat, b as nat),
                    );
                    covered = p as nat;
                }
                if count % CHECKPOINT_INTERVAL == 0 {
                    match decide_at_checkpoint(candidate_factor(&a, n), n, p) {
                        Some(verdict) => {
                            proof {
                                lemma_sweep_settled(n@, b as nat, p as nat, b as nat);
                            }
                            return verdict;
                        },
                        None => {},
                    }
                }
                if p == b {
                    done = true;
                } else {
                    from = p + 1;
                }
            }
        }
    } else {
        proof {
            assert forall|q: nat| 0 < q <= b implies !is_prime(q) by {}
            lemma_gap(n@, b as nat, 0, b as nat);
        }
    }
    decide_at_end(candidate_factor(&a, n), n, last)
}

/// Looks for a factor `p` of `n` such that `p − 1` is a product of prime
/// powers none of which exceeds `b`.
///
/// The result is the outcome of stage one, an error being given in words.
pub fn factor(n: Natural, b: usize) -> (r: Result<Natural, String>)
    requires
        n@ > 0 || b < 2,
    ensures
        reports(r, outcome(n@, b as nat)),
        r is Ok ==> 1 < r->Ok_0@ < n@ && n@ % r->Ok_0@ == 0,
{
    match stage_one(&n, b) {
        Ok(d) => Ok(d),
        Err(e) => Err(e.message()),
    }
}

} // verus!
