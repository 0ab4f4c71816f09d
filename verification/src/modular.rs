//! Modular exponentiation and the greatest common divisor on `Natural`.
use crate::divisibility::gcd;
use crate::natural::Natural;
use vstd::arithmetic::div_mod::{lemma_mod_bound, lemma_mul_mod_noop_general, lemma_small_mod};
use vstd::arithmetic::power::{
    lemma_pow0, lemma_pow1, lemma_pow_adds, lemma_pow_mod_noop, lemma_pow_multiplies,
    lemma_square_is_pow2, pow,
};
use vstd::prelude::*;

verus! {

/// Halving the exponent squares the base: `b^e` is `(b·b)^(e/2)`, times `b`
/// once more when `e` is odd.
pub proof fn lemma_pow_halves(b: int, e: nat)
    ensures
        e % 2 == 0 ==> pow(b, e) == pow(b * b, e / 2),
        e % 2 == 1 ==> pow(b, e) == b * pow(b * b, e / 2),
{
    let h = e / 2;
    lemma_square_is_pow2(b);
    lemma_pow_multiplies(b, 2, h);
    assert(2 * h == h + h);
    if e % 2 == 1 {
        assert(e == 1 + 2 * h);
        lemma_pow_adds(b, 1, 2 * h);
        lemma_pow1(b);
    } else {
        assert(e == 2 * h);
    }
}

impl Natural {
    /// The number raised to the power `exp`, reduced modulo `modulus`.
    /// The zeroth power is one, reduced modulo `modulus`.
    pub fn pow_mod(&self, exp: u64, modulus: &Natural) -> (r: Natural)
        requires
            modulus@ > 0,
        ensures
            r@ == pow(self@ as int, exp as nat) % (modulus@ as int),
    {
        let ghost m = modulus@ as int;
        let ghost goal = pow(self@ as int, exp as nat) % m;
        let mut result = Natural::from_u64(1).rem(modulus);
        let mut base = self.rem(modulus);
        let mut e: u64 = exp;
        proof {
            let p = pow(self@ as int, exp as nat);
            lemma_pow_mod_noop(self@ as int, exp as nat, m);
            lemma_mul_mod_noop_general(1, pow(base@ as int, e as nat), m);
            lemma_mod_bound(1, m);
            lemma_mod_bound(self@ as int, m);
            assert(1 * pow(base@ as int, e as nat) == pow(base@ as int, e as nat));
        }
        while e > 0
            invariant
                m == modulus@,
                m > 0,
                result@ < m,
                base@ < m,
                (result@ * pow(base@ as int, e as nat)) % m == goal,
            decreases e,
        {
            let ghost b = base@ as int;
            let ghost r0 = result@ as int;
            let ghost rest = pow(b * b, (e / 2) as nat);
            let square = base.mul(&base).rem(modulus);
            proof {
                lemma_pow_halves(b, e as nat);
                lemma_pow_mod_noop(b * b, (e / 2) as nat, m);
                lemma_mod_bound(b * b, m);
            }
            if e % 2 == 1 {
                let grown = result.mul(&base).rem(modulus);
                proof {
                    assert(r0 * (b * rest) == (r0 * b) * rest) by (nonlinear_arith);
                    lemma_mul_mod_noop_general(r0 * b, rest, m);
                    lemma_mul_mod_noop_general(
                        grown@ as int,
                        pow(square@ as int, (e / 2) as nat),
                        m,
                    );
                    lemma_mod_bound(r0 * b, m);
                }
                result = grown;
            } else {
                proof {
                    lemma_mul_mod_noop_general(r0, rest, m);
                    lemma_mul_mod_noop_general(r0, pow(square@ as int, (e / 2) as nat), m);
                }
            }
            base = square;
            e = e / 2;
        }
        proof {
            lemma_pow0(base@ as int);
            assert(result@ * 1 == result@);
            lemma_small_mod(result@, modulus@);
        }
        result
    }

    /// The greatest common divisor of the two numbers.
    pub fn gcd(&self, other: &Natural) -> (r: Natural)
        ensures
            r@ == gcd(self@, other@),
    {
        let mut x = self.clone();
        let mut y = other.clone();
        while !y.is_zero()
            invariant
                gcd(x@, y@) == gcd(self@, other@),
            decreases y@,
        {
            let rest = x.rem(&y);
            proof {
                lemma_mod_bound(x@ as int, y@ as int);
            }
            x = y;
            y = rest;
        }
        x
    }
}

} // verus!
