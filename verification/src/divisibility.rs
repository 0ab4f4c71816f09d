//! Divisibility and the greatest common divisor, as mathematics.
use vstd::arithmetic::div_mod::{
    lemma_fundamental_div_mod, lemma_mod_multiples_basic, lemma_small_mod,
};
use vstd::prelude::*;

verus! {

/// `d` divides `n`: `n` is a multiple of the positive number `d`.
pub open spec fn divides(d: int, n: int) -> bool {
    d > 0 && n % d == 0
}

/// The greatest common divisor of two natural numbers, by Euclid's rule.
/// `gcd(a, 0)` is `a`, so `gcd(0, 0)` is zero.
pub open spec fn gcd(a: nat, b: nat) -> nat
    decreases b,
{
    if b == 0 {
        a
    } else {
        gcd(b, a % b)
    }
}

/// Every multiple of `d` is divisible by `d`.
pub proof fn lemma_divides_multiple(d: int, k: int)
    requires
        d > 0,
    ensures
        divides(d, d * k),
        divides(d, k * d),
{
    lemma_mod_multiples_basic(k, d);
    assert(d * k == k * d) by (nonlinear_arith);
}

/// What `d` divides is `d` times the quotient.
pub proof fn lemma_divides_quotient(d: int, n: int)
    requires
        divides(d, n),
    ensures
        n == d * (n / d),
{
    lemma_fundamental_div_mod(n, d);
}

/// A divisor of two numbers divides their sum and their difference.
pub proof fn lemma_divides_sum(d: int, x: int, y: int)
    requires
        divides(d, x),
        divides(d, y),
    ensures
        divides(d, x + y),
        divides(d, x - y),
{
    lemma_divides_quotient(d, x);
    lemma_divides_quotient(d, y);
    let p = x / d;
    let q = y / d;
    assert(x + y == d * (p + q)) by (nonlinear_arith)
        requires
            x == d * p,
            y == d * q,
    ;
    assert(x - y == d * (p - q)) by (nonlinear_arith)
        requires
            x == d * p,
            y == d * q,
    ;
    lemma_divides_multiple(d, p + q);
    lemma_divides_multiple(d, p - q);
}

/// A divisor of a number divides its multiples.
pub proof fn lemma_divides_product(d: int, x: int, k: int)
    requires
        divides(d, x),
    ensures
        divides(d, x * k),
        divides(d, k * x),
{
    lemma_divides_quotient(d, x);
    let p = x / d;
    assert(x * k == d * (p * k)) by (nonlinear_arith)
        requires
            x == d * p,
    ;
    assert(k * x == x * k) by (nonlinear_arith);
    lemma_divides_multiple(d, p * k);
}

/// Divisibility is transitive.
pub proof fn lemma_divides_transitive(a: int, b: int, c: int)
    requires
        divides(a, b),
        divides(b, c),
    ensures
        divides(a, c),
{
    lemma_divides_quotient(b, c);
    lemma_divides_product(a, b, c / b);
}

/// A divisor of a positive number is no larger than the number.
pub proof fn lemma_divides_bound(d: int, n: int)
    requires
        divides(d, n),
        n > 0,
    ensures
        d <= n,
{
    if d > n {
        lemma_small_mod(n as nat, d as nat);
    }
}

/// The greatest common divisor divides both numbers, unless both are zero.
pub proof fn lemma_gcd_divides(a: nat, b: nat)
    requires
        a > 0 || b > 0,
    ensures
        gcd(a, b) > 0,
        divides(gcd(a, b) as int, a as int),
        divides(gcd(a, b) as int, b as int),
    decreases b,
{
    if b == 0 {
        lemma_divides_multiple(a as int, 1);
        lemma_divides_multiple(a as int, 0);
    } else {
        let g = gcd(b, a % b) as int;
        lemma_gcd_divides(b, a % b);
        lemma_fundamental_div_mod(a as int, b as int);
        lemma_divides_product(g, b as int, a as int / b as int);
        lemma_divides_sum(g, b * (a as int / b as int), (a % b) as int);
    }
}

/// Every common divisor of two numbers divides their greatest common divisor.
pub proof fn lemma_gcd_greatest(a: nat, b: nat, d: int)
    requires
        divides(d, a as int),
        divides(d, b as int),
    ensures
        divides(d, gcd(a, b) as int),
    decreases b,
{
    if b != 0 {
        lemma_fundamental_div_mod(a as int, b as int);
        lemma_divides_product(d, b as int, a as int / b as int);
        lemma_divides_sum(d, a as int, b * (a as int / b as int));
        lemma_gcd_greatest(b, a % b, d);
    }
}

/// The greatest common divisor of a number and a positive number lies
/// between one and the latter.
pub proof fn lemma_gcd_range(a: nat, n: nat)
    requires
        n > 0,
    ensures
        1 <= gcd(a, n) <= n,
{
    lemma_gcd_divides(a, n);
    lemma_divides_bound(gcd(a, n) as int, n as int);
}

/// A number that differs from `r` by a multiple of `m` leaves the remainder
/// `r` on division by `m`, for `r` below `m`.
pub proof fn lemma_remainder_from_difference(x: int, r: int, m: int)
    requires
        divides(m, x - r),
        0 <= r < m,
    ensures
        x % m == r,
{
    lemma_divides_quotient(m, x - r);
    vstd::arithmetic::div_mod::lemma_mod_multiples_vanish((x - r) / m, r, m);
    lemma_small_mod(r as nat, m as nat);
}

/// Two numbers that leave the same remainder on division by `m` differ by a
/// multiple of `m`.
pub proof fn lemma_difference_from_remainder(x: int, y: int, m: int)
    requires
        m > 0,
        x % m == y % m,
    ensures
        divides(m, x - y),
{
    lemma_fundamental_div_mod(x, m);
    lemma_fundamental_div_mod(y, m);
    let p = x / m;
    let q = y / m;
    assert(x - y == m * (p - q)) by (nonlinear_arith)
        requires
            x == m * p + x % m,
            y == m * q + y % m,
            x % m == y % m,
    ;
    lemma_divides_multiple(m, p - q);
}

/// Multiplying divisor and number by the same positive factor keeps
/// divisibility.
pub proof fn lemma_divides_scale(c: int, d: int, x: int)
    requires
        c > 0,
        divides(d, x),
    ensures
        divides(c * d, c * x),
{
    lemma_divides_quotient(d, x);
    let t = x / d;
    assert(c * x == (c * d) * t) by (nonlinear_arith)
        requires
            x == d * t,
    ;
    assert(c * d > 0) by (nonlinear_arith)
        requires
            c > 0,
            d > 0,
    ;
    lemma_divides_multiple(c * d, t);
}

/// A positive factor common to divisor and number can be cancelled.
pub proof fn lemma_divides_cancel(c: int, d: int, x: int)
    requires
        c > 0,
        d > 0,
        divides(c * d, c * x),
    ensures
        divides(d, x),
{
    lemma_divides_quotient(c * d, c * x);
    let t = (c * x) / (c * d);
    assert(x == d * t) by (nonlinear_arith)
        requires
            c * x == (c * d) * t,
            c > 0,
    ;
    lemma_divides_multiple(d, t);
}

} // verus!
