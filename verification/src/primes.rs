//! Prime numbers: what they are, and the sieve that enumerates them.
use vstd::prelude::*;

verus! {

/// A prime number: at least two, and divisible by nothing between one and
/// itself.
pub open spec fn is_prime(p: nat) -> bool {
    p >= 2 && forall|d: nat| 1 < d < p ==> #[trigger] (p % d) != 0
}

/// The number of primes that do not exceed `q`.
pub open spec fn prime_count(q: nat) -> nat
    decreases q,
{
    if q < 2 {
        0
    } else {
        prime_count((q - 1) as nat) + if is_prime(q) {
            1nat
        } else {
            0nat
        }
    }
}

/// The largest prime that does not exceed `q`, and zero where there is none.
pub open spec fn last_prime(q: nat) -> nat
    decreases q,
{
    if q < 2 {
        0
    } else if is_prime(q) {
        q
    } else {
        last_prime((q - 1) as nat)
    }
}

/// `last_prime` gives a prime within `q`, and no prime lies between it and
/// `q`; it gives zero only where no prime is within `q`.
pub proof fn lemma_last_prime(q: nat)
    ensures
        last_prime(q) <= q,
        last_prime(q) != 0 ==> is_prime(last_prime(q)),
        forall|r: nat| last_prime(q) < r <= q ==> !is_prime(r),
    decreases q,
{
    if q >= 2 && !is_prime(q) {
        lemma_last_prime((q - 1) as nat);
    }
}

/// The largest machine integer is a multiple of three, and so no prime.
pub proof fn lemma_largest_word_is_composite()
    ensures
        !is_prime(usize::MAX as nat),
{
    assert(usize::MAX == 0xFFFF_FFFF || usize::MAX == 0xFFFF_FFFF_FFFF_FFFF);
    assert((usize::MAX as nat) % 3nat == 0);
}

/// There are fewer primes up to `q` than numbers up to `q`.
pub proof fn lemma_prime_count_bound(q: nat)
    ensures
        prime_count(q) <= q,
    decreases q,
{
    if q >= 2 {
        lemma_prime_count_bound((q - 1) as nat);
    }
}

/// The sieve of the `primal` crate. What it holds is hidden from the proofs.
#[verifier::external_type_specification]
#[verifier::external_body]
pub struct ExSieve(primal::Sieve);

/// The largest number that a sieve knows about.
pub uninterp spec fn sieve_limit(sieve: primal::Sieve) -> nat;

/// Calls `primal::Sieve::new`, which sieves out the primes up to `limit`.
/// Trusted: the sieve that comes back knows about every number up to `limit`,
/// and perhaps about a few more.
#[verifier::external_body]
pub(crate) fn sieve_up_to(limit: usize) -> (sieve: primal::Sieve)
    ensures
        sieve_limit(sieve) >= limit,
{
    primal::Sieve::new(limit)
}

/// Calls `primal::Sieve::primes_from` and takes the first prime that the
/// iterator yields. Trusted: the iterator starts at the least prime that is
/// not below `from`, and it ends without one only where no number from `from`
/// up to the sieve's limit is prime. `primes_from` panics where `from` is
/// beyond the limit, and may index past its last segment where `from` is the
/// limit itself; the precondition leaves both out.
#[verifier::external_body]
pub(crate) fn first_prime_from(sieve: &primal::Sieve, from: usize) -> (r: Option<usize>)
    requires
        from < sieve_limit(*sieve),
    ensures
        match r {
            Some(p) => from <= p && is_prime(p as nat) && forall|q: nat|
                from <= q < p ==> !is_prime(q),
            None => forall|q: nat| from <= q <= sieve_limit(*sieve) ==> !is_prime(q),
        },
{
    sieve.primes_from(from).next()
}

} // verus!
