//! Natural numbers of any size, held as base-2^32 digits.
use crate::limbs::{
    lemma_drop_leading_zero, lemma_low_digit, lemma_lower_agrees, lemma_lower_bound,
    lemma_lower_is_whole, lemma_single_limb, lemma_split, lemma_trimmed_value_bound,
    lemma_value_bound, lemma_weight_monotonic, lemma_weight_positive, lemma_zero_is_empty,
    limb_or_zero, limbs_value, lower_value, radix, trimmed, upper_value, weight,
};
use vstd::arithmetic::div_mod::{
    lemma_add_mod_noop_right, lemma_fundamental_div_mod, lemma_fundamental_div_mod_converse,
    lemma_mod_bound, lemma_mod_multiples_vanish, lemma_mul_mod_noop_right, lemma_small_mod,
};
use vstd::prelude::*;

verus! {

/// A natural number of any size.
///
/// The digits are kept least significant first and without a leading zero, so
/// two values are the same number exactly when their digits are the same.
#[derive(Debug, PartialEq, Eq)]
pub struct Natural {
    limbs: Vec<u32>,
}

impl View for Natural {
    type V = nat;

    /// The number that the value stands for.
    closed spec fn view(&self) -> nat {
        limbs_value(self.limbs@)
    }
}

impl Clone for Natural {
    fn clone(&self) -> (r: Self)
        ensures
            r@ == self@,
    {
        proof {
            use_type_invariant(self);
        }
        let limbs = self.limbs.clone();
        assert(limbs@ =~= self.limbs@);
        Natural { limbs }
    }
}

/// The limb at position `i` of a notation, zero past its end.
fn limb_at(limbs: &Vec<u32>, i: usize) -> (r: u32)
    ensures
        r as nat == limb_or_zero(limbs@, i as int),
{
    if i < limbs.len() {
        limbs[i]
    } else {
        0
    }
}

impl Natural {
    #[verifier::type_invariant]
    spec fn well_formed(&self) -> bool {
        trimmed(self.limbs@)
    }

    /// The number written by `limbs`, least significant first.
    fn from_limbs(limbs: Vec<u32>) -> (r: Natural)
        ensures
            r@ == limbs_value(limbs@),
    {
        let ghost written = limbs@;
        let mut limbs = limbs;
        while limbs.len() > 0 && limbs[limbs.len() - 1] == 0
            invariant
                limbs_value(limbs@) == limbs_value(written),
            decreases limbs.len(),
        {
            proof {
                lemma_drop_leading_zero(limbs@);
            }
            limbs.pop();
        }
        Natural { limbs }
    }

    /// The number zero.
    pub fn zero() -> (r: Natural)
        ensures
            r@ == 0,
    {
        Natural { limbs: Vec::new() }
    }

    /// The number that a machine integer holds.
    pub fn from_u64(v: u64) -> (r: Natural)
        ensures
            r@ == v,
    {
        let low: u32 = (v % 0x1_0000_0000) as u32;
        let high: u32 = (v / 0x1_0000_0000) as u32;
        let mut limbs: Vec<u32> = Vec::new();
        limbs.push(low);
        limbs.push(high);
        proof {
            assert(upper_value(limbs@, 2) == 0);
            assert(upper_value(limbs@, 1) == high);
            assert(upper_value(limbs@, 0) == low + radix() * high);
        }
        Natural::from_limbs(limbs)
    }

    /// Whether the number is zero.
    pub fn is_zero(&self) -> (r: bool)
        ensures
            r == (self@ == 0),
    {
        proof {
            use_type_invariant(self);
            lemma_zero_is_empty(self.limbs@);
        }
        self.limbs.len() == 0
    }

    /// Whether `self` is less than `other`.
    pub fn lt(&self, other: &Natural) -> (r: bool)
        ensures
            r == (self@ < other@),
    {
        proof {
            use_type_invariant(self);
            use_type_invariant(other);
        }
        let n = self.limbs.len();
        let m = other.limbs.len();
        if n < m {
            proof {
                lemma_value_bound(self.limbs@);
                lemma_trimmed_value_bound(other.limbs@);
                lemma_weight_monotonic(n as nat, (m - 1) as nat);
            }
            return true;
        }
        if n > m {
            proof {
                lemma_value_bound(other.limbs@);
                lemma_trimmed_value_bound(self.limbs@);
                lemma_weight_monotonic(m as nat, (n - 1) as nat);
            }
            return false;
        }
        let mut i: usize = n;
        while i > 0
            invariant
                i <= n,
                n == self.limbs@.len(),
                n == other.limbs@.len(),
                upper_value(self.limbs@, i as int) == upper_value(other.limbs@, i as int),
            decreases i,
        {
            i = i - 1;
            let x = self.limbs[i];
            let y = other.limbs[i];
            if x != y {
                proof {
                    let a = self.limbs@;
                    let b = other.limbs@;
                    let w = weight(i as nat);
                    let ua = upper_value(a, i as int);
                    let ub = upper_value(b, i as int);
                    lemma_split(a, i as int);
                    lemma_split(b, i as int);
                    lemma_lower_bound(a, i as int);
                    lemma_lower_bound(b, i as int);
                    if x < y {
                        assert(ua + 1 <= ub);
                        assert(w * ua + w <= w * ub) by (nonlinear_arith)
                            requires
                                ua + 1 <= ub,
                        ;
                    } else {
                        assert(ub + 1 <= ua);
                        assert(w * ub + w <= w * ua) by (nonlinear_arith)
                            requires
                                ub + 1 <= ua,
                        ;
                    }
                }
                return x < y;
            }
        }
        false
    }

    /// Whether `self` is at most `other`.
    pub fn le(&self, other: &Natural) -> (r: bool)
        ensures
            r == (self@ <= other@),
    {
        !other.lt(self)
    }

    /// Whether the two are the same number.
    pub fn equals(&self, other: &Natural) -> (r: bool)
        ensures
            r == (self@ == other@),
    {
        !self.lt(other) && !other.lt(self)
    }

    /// The sum of the two numbers.
    pub fn add(&self, other: &Natural) -> (r: Natural)
        ensures
            r@ == self@ + other@,
    {
        let n = if self.limbs.len() >= other.limbs.len() {
            self.limbs.len()
        } else {
            other.limbs.len()
        };
        let mut out: Vec<u32> = Vec::new();
        let mut carry: u64 = 0;
        let mut i: usize = 0;
        while i < n
            invariant
                i <= n,
                out@.len() == i,
                carry <= 1,
                lower_value(out@, i as int) + carry * weight(i as nat) == lower_value(
                    self.limbs@,
                    i as int,
                ) + lower_value(other.limbs@, i as int),
            decreases n - i,
        {
            let x = limb_at(&self.limbs, i);
            let y = limb_at(&other.limbs, i);
            let sum: u64 = x as u64 + y as u64 + carry;
            let digit: u32 = (sum % 0x1_0000_0000) as u32;
            let next: u64 = sum / 0x1_0000_0000;
            let ghost before = out@;
            out.push(digit);
            proof {
                let w = weight(i as nat);
                lemma_lower_agrees(before, out@, i as int);
                assert(weight((i + 1) as nat) == radix() * w);
                assert(digit * w + next * (radix() * w) == x * w + y * w + carry * w)
                    by (nonlinear_arith)
                    requires
                        digit + next * radix() == x + y + carry,
                ;
            }
            carry = next;
            i = i + 1;
        }
        proof {
            lemma_lower_is_whole(self.limbs@, n as int);
            lemma_lower_is_whole(other.limbs@, n as int);
        }
        if carry > 0 {
            let ghost before = out@;
            out.push(carry as u32);
            proof {
                lemma_lower_agrees(before, out@, n as int);
                lemma_lower_is_whole(out@, n + 1);
            }
        } else {
            proof {
                lemma_lower_is_whole(out@, n as int);
                assert(carry * weight(n as nat) == 0) by (nonlinear_arith)
                    requires
                        carry == 0,
                ;
            }
        }
        Natural::from_limbs(out)
    }

    /// The difference `self − other`, for `other` no larger than `self`.
    pub fn sub(&self, other: &Natural) -> (r: Natural)
        requires
            self@ >= other@,
        ensures
            r@ == self@ - other@,
    {
        let n = if self.limbs.len() >= other.limbs.len() {
            self.limbs.len()
        } else {
            other.limbs.len()
        };
        let mut out: Vec<u32> = Vec::new();
        let mut borrow: u64 = 0;
        let mut i: usize = 0;
        while i < n
            invariant
                i <= n,
                out@.len() == i,
                borrow <= 1,
                lower_value(out@, i as int) + lower_value(other.limbs@, i as int) == lower_value(
                    self.limbs@,
                    i as int,
                ) + borrow * weight(i as nat),
            decreases n - i,
        {
            let x = limb_at(&self.limbs, i);
            let y = limb_at(&other.limbs, i);
            let raised: u64 = x as u64 + 0x1_0000_0000 - y as u64 - borrow;
            let digit: u32 = (raised % 0x1_0000_0000) as u32;
            let next: u64 = if raised < 0x1_0000_0000 {
                1
            } else {
                0
            };
            let ghost before = out@;
            out.push(digit);
            proof {
                let w = weight(i as nat);
                lemma_lower_agrees(before, out@, i as int);
                assert(weight((i + 1) as nat) == radix() * w);
                assert(digit * w + y * w + borrow * w == x * w + next * (radix() * w))
                    by (nonlinear_arith)
                    requires
                        digit + y + borrow == x + next * radix(),
                ;
            }
            borrow = next;
            i = i + 1;
        }
        proof {
            lemma_lower_is_whole(self.limbs@, n as int);
            lemma_lower_is_whole(other.limbs@, n as int);
            lemma_lower_is_whole(out@, n as int);
            lemma_lower_bound(out@, n as int);
            if borrow == 1 {
                assert(borrow * weight(n as nat) == weight(n as nat)) by (nonlinear_arith)
                    requires
                        borrow == 1,
                ;
            } else {
                assert(borrow * weight(n as nat) == 0) by (nonlinear_arith)
                    requires
                        borrow == 0,
                ;
            }
        }
        Natural::from_limbs(out)
    }
}

impl Natural {
    /// The product of the number and a machine integer, plus another one.
    pub fn mul_small_add(&self, w: u32, c: u32) -> (r: Natural)
        ensures
            r@ == self@ * w + c,
    {
        let n = self.limbs.len();
        let mut out: Vec<u32> = Vec::new();
        let mut carry: u64 = c as u64;
        let mut i: usize = 0;
        proof {
            assert(carry * weight(0) == c) by (nonlinear_arith)
                requires
                    carry == c,
                    weight(0) == 1,
            ;
            assert(lower_value(self.limbs@, 0) * w == 0) by (nonlinear_arith)
                requires
                    lower_value(self.limbs@, 0) == 0,
            ;
        }
        while i < n
            invariant
                i <= n,
                n == self.limbs@.len(),
                out@.len() == i,
                carry < 0x1_0000_0000,
                lower_value(out@, i as int) + carry * weight(i as nat) == lower_value(
                    self.limbs@,
                    i as int,
                ) * w + c,
            decreases n - i,
        {
            let x = self.limbs[i];
            assert(x * w <= 0xFFFF_FFFF * 0xFFFF_FFFF) by (nonlinear_arith)
                requires
                    x <= 0xFFFF_FFFF,
                    w <= 0xFFFF_FFFF,
            ;
            let t: u64 = x as u64 * w as u64 + carry;
            let digit: u32 = (t % 0x1_0000_0000) as u32;
            let next: u64 = t / 0x1_0000_0000;
            let ghost before = out@;
            out.push(digit);
            proof {
                let wt = weight(i as nat);
                let low = lower_value(self.limbs@, i as int);
                lemma_lower_agrees(before, out@, i as int);
                assert(weight((i + 1) as nat) == radix() * wt);
                assert(digit * wt + next * (radix() * wt) == (x * w) * wt + carry * wt)
                    by (nonlinear_arith)
                    requires
                        digit + next * radix() == x * w + carry,
                ;
                assert((low + x * wt) * w == low * w + (x * w) * wt) by (nonlinear_arith);
            }
            carry = next;
            i = i + 1;
        }
        proof {
            lemma_lower_is_whole(self.limbs@, n as int);
        }
        if carry > 0 {
            let ghost before = out@;
            out.push(carry as u32);
            proof {
                lemma_lower_agrees(before, out@, n as int);
                lemma_lower_is_whole(out@, n + 1);
            }
        } else {
            proof {
                lemma_lower_is_whole(out@, n as int);
                assert(carry * weight(n as nat) == 0) by (nonlinear_arith)
                    requires
                        carry == 0,
                ;
            }
        }
        Natural::from_limbs(out)
    }

    /// The number with one more digit written below it: `self` times the base
    /// of the notation, plus `digit`.
    fn push_low(&self, digit: u32) -> (r: Natural)
        ensures
            r@ == self@ * radix() + digit,
    {
        let n = self.limbs.len();
        let mut out: Vec<u32> = Vec::new();
        out.push(digit);
        let mut i: usize = 0;
        while i < n
            invariant
                i <= n,
                n == self.limbs@.len(),
                out@.len() == i + 1,
                out@[0] == digit,
                forall|j: int| 0 <= j < i ==> out@[j + 1] == self.limbs@[j],
            decreases n - i,
        {
            out.push(self.limbs[i]);
            i = i + 1;
        }
        proof {
            lemma_low_digit(self.limbs@, digit, out@);
        }
        Natural::from_limbs(out)
    }

    /// The product of the two numbers.
    pub fn mul(&self, other: &Natural) -> (r: Natural)
        ensures
            r@ == self@ * other@,
    {
        let mut acc = Natural::zero();
        let mut j: usize = other.limbs.len();
        proof {
            assert(self@ * upper_value(other.limbs@, j as int) == 0) by (nonlinear_arith)
                requires
                    upper_value(other.limbs@, j as int) == 0,
            ;
        }
        while j > 0
            invariant
                j <= other.limbs@.len(),
                acc@ == self@ * upper_value(other.limbs@, j as int),
            decreases j,
        {
            j = j - 1;
            let d = other.limbs[j];
            let part = self.mul_small_add(d, 0);
            let shifted = acc.push_low(0);
            proof {
                let a = self@;
                let u = upper_value(other.limbs@, j + 1);
                assert(upper_value(other.limbs@, j as int) == d + radix() * u);
                assert((a * u) * radix() + a * d == a * (d + radix() * u)) by (nonlinear_arith);
            }
            acc = shifted.add(&part);
        }
        acc
    }

    /// The number as a machine integer, if it fits in one.
    pub fn to_u64(&self) -> (r: Option<u64>)
        ensures
            match r {
                Some(v) => v == self@,
                None => self@ > u64::MAX,
            },
    {
        proof {
            use_type_invariant(self);
        }
        let n = self.limbs.len();
        if n == 0 {
            Some(0)
        } else if n == 1 {
            proof {
                lemma_single_limb(self.limbs@);
            }
            Some(self.limbs[0] as u64)
        } else if n == 2 {
            proof {
                assert(upper_value(self.limbs@, 2) == 0);
                assert(upper_value(self.limbs@, 1) == self.limbs@[1]);
                assert(upper_value(self.limbs@, 0) == self.limbs@[0] + radix() * self.limbs@[1]);
            }
            Some(self.limbs[0] as u64 + 0x1_0000_0000 * (self.limbs[1] as u64))
        } else {
            proof {
                lemma_trimmed_value_bound(self.limbs@);
                lemma_weight_monotonic(2, (n - 1) as nat);
                assert(weight(2) == radix() * weight(1));
                assert(weight(1) == radix() * weight(0));
            }
            None
        }
    }

    /// The remainder of the number on division by a machine integer.
    pub fn rem_small(&self, d: u64) -> (r: u64)
        requires
            d > 0,
        ensures
            r == self@ % (d as nat),
    {
        let mut rest: u64 = 0;
        let mut i: usize = self.limbs.len();
        proof {
            lemma_small_mod(0, d as nat);
        }
        while i > 0
            invariant
                i <= self.limbs@.len(),
                d > 0,
                rest < d,
                rest == upper_value(self.limbs@, i as int) % (d as nat),
            decreases i,
        {
            i = i - 1;
            let x = self.limbs[i];
            let t: u128 = rest as u128 * 0x1_0000_0000 + x as u128;
            proof {
                let u = upper_value(self.limbs@, i + 1) as int;
                let m = d as int;
                assert(upper_value(self.limbs@, i as int) == x + radix() * u);
                lemma_mul_mod_noop_right(radix() as int, u, m);
                lemma_add_mod_noop_right(x as int, radix() * u, m);
                lemma_add_mod_noop_right(x as int, radix() * (u % m), m);
            }
            rest = (t % (d as u128)) as u64;
        }
        rest
    }

    /// The quotient and the remainder of the number on division by a machine
    /// integer.
    pub fn div_rem_small(&self, d: u32) -> (r: (Natural, u32))
        requires
            d > 0,
        ensures
            r.0@ == self@ / (d as nat),
            r.1 == self@ % (d as nat),
    {
        let mut quotient = Natural::zero();
        let mut rest: u64 = 0;
        let mut i: usize = self.limbs.len();
        proof {
            assert(quotient@ * d + rest == 0) by (nonlinear_arith)
                requires
                    quotient@ == 0,
                    rest == 0,
            ;
        }
        while i > 0
            invariant
                i <= self.limbs@.len(),
                d > 0,
                rest < d,
                upper_value(self.limbs@, i as int) == quotient@ * d + rest,
            decreases i,
        {
            i = i - 1;
            let x = self.limbs[i];
            let t: u64 = rest * 0x1_0000_0000 + x as u64;
            let digit: u64 = t / (d as u64);
            let left: u64 = t % (d as u64);
            proof {
                let u = upper_value(self.limbs@, i + 1) as int;
                let q = quotient@ as int;
                let di = d as int;
                assert(upper_value(self.limbs@, i as int) == x + radix() * u);
                lemma_fundamental_div_mod(t as int, di);
                assert(di * (t as int / di) == digit * d) by (nonlinear_arith)
                    requires
                        t as int / di == digit,
                        di == d,
                ;
                assert(digit < 0x1_0000_0000) by (nonlinear_arith)
                    requires
                        t == digit * d + left,
                        t < d * 0x1_0000_0000,
                        d > 0,
                        left >= 0,
                ;
                assert(x + radix() * (q * di + rest) == (q * radix() + digit) * di + left)
                    by (nonlinear_arith)
                    requires
                        rest * radix() + x == digit * di + left,
                ;
            }
            quotient = quotient.push_low(digit as u32);
            rest = left;
        }
        proof {
            lemma_fundamental_div_mod_converse(
                self@ as int,
                d as int,
                quotient@ as int,
                rest as int,
            );
        }
        (quotient, rest as u32)
    }

    /// A machine integer, at least one, whose product with `modulus` does not
    /// exceed the number: the leading digits of the number divided by one
    /// more than the two leading digits of `modulus`.
    fn quotient_estimate(&self, modulus: &Natural) -> (q: u32)
        requires
            modulus@ > u64::MAX,
            modulus@ <= self@ < modulus@ * radix(),
        ensures
            q >= 1,
            q * modulus@ <= self@,
    {
        let k = modulus.limbs.len();
        proof {
            use_type_invariant(self);
            use_type_invariant(modulus);
            assert(weight(2) == radix() * weight(1));
            assert(weight(1) == radix() * weight(0));
            lemma_value_bound(modulus.limbs@);
            if k <= 2 {
                lemma_weight_monotonic(k as nat, 2);
            }
        }
        let low = k - 2;
        let divisor: u128 = modulus.limbs[low] as u128 + 0x1_0000_0000 * (modulus.limbs[low
            + 1] as u128) + 1;
        let head: u128 = limb_at(&self.limbs, low) as u128 + 0x1_0000_0000 * (limb_at(
            &self.limbs,
            low + 1,
        ) as u128) + 0x1_0000_0000_0000_0000 * (limb_at(&self.limbs, k) as u128);
        let estimate: u128 = head / divisor;
        proof {
            let mine = self.limbs@;
            let theirs = modulus.limbs@;
            let w = weight(low as nat) as int;
            let m = modulus@ as int;
            let v = self@ as int;
            let len = mine.len();
            lemma_weight_positive(low as nat);
            // the number has as many digits as the modulus, or one more
            lemma_value_bound(mine);
            lemma_trimmed_value_bound(theirs);
            if len < k {
                lemma_weight_monotonic(len as nat, (k - 1) as nat);
            }
            assert(weight((k + 1) as nat) == radix() * weight(k as nat));
            assert(m * radix() < weight((k + 1) as nat)) by (nonlinear_arith)
                requires
                    m < weight(k as nat),
                    weight((k + 1) as nat) == radix() * weight(k as nat),
            ;
            if len > k + 1 {
                lemma_trimmed_value_bound(mine);
                lemma_weight_monotonic((k + 1) as nat, (len - 1) as nat);
            }
            assert(k <= len <= k + 1);
            // the leading digits as numbers
            assert(upper_value(mine, k + 1) == 0);
            assert(upper_value(mine, k as int) == limb_or_zero(mine, k as int));
            assert(upper_value(mine, low + 1) == mine[low + 1] + radix() * upper_value(
                mine,
                k as int,
            ));
            assert(upper_value(mine, low as int) == mine[low as int] + radix() * upper_value(
                mine,
                low + 1,
            ));
            assert(head == upper_value(mine, low as int));
            assert(upper_value(theirs, k as int) == 0);
            assert(upper_value(theirs, low + 1) == theirs[low + 1]);
            assert(upper_value(theirs, low as int) == theirs[low as int] + radix() * theirs[low
                + 1]);
            assert(divisor == upper_value(theirs, low as int) + 1);
            lemma_split(mine, low as int);
            lemma_split(theirs, low as int);
            lemma_lower_bound(theirs, low as int);
            lemma_fundamental_div_mod(head as int, divisor as int);
            let e = estimate as int;
            let d = divisor as int;
            let h = head as int;
            assert(m < w * d) by (nonlinear_arith)
                requires
                    m == lower_value(theirs, low as int) + w * (d - 1),
                    lower_value(theirs, low as int) < w,
            ;
            assert(e * m <= v) by (nonlinear_arith)
                requires
                    m < w * d,
                    d * e <= h,
                    w * h <= v,
                    e >= 0,
                    w >= 1,
                    d >= 1,
            ;
            assert(e < radix()) by (nonlinear_arith)
                requires
                    e * m <= v,
                    v < m * radix(),
                    m > 0,
            ;
        }
        if estimate == 0 {
            proof {
                assert(1 * modulus@ == modulus@);
            }
            1
        } else {
            estimate as u32
        }
    }

    /// The number with one more digit written below it, reduced modulo
    /// `modulus`: multiples of `modulus` are taken away until less than
    /// `modulus` is left.
    fn push_low_mod(&self, digit: u32, modulus: &Natural) -> (r: Natural)
        requires
            self@ < modulus@,
            modulus@ > u64::MAX,
        ensures
            r@ == (self@ * radix() + digit) % (modulus@ as int),
    {
        let ghost m = modulus@ as int;
        let ghost whole = self@ * radix() + digit;
        let mut rest = self.push_low(digit);
        proof {
            assert(whole < m * radix()) by (nonlinear_arith)
                requires
                    whole == self@ * radix() + digit,
                    self@ + 1 <= m,
                    digit < radix(),
            ;
        }
        while !rest.lt(modulus)
            invariant
                m == modulus@,
                modulus@ > u64::MAX,
                (rest@ as int) % m == whole % m,
                rest@ < m * radix(),
            decreases rest@,
        {
            let q = rest.quotient_estimate(modulus);
            let part = modulus.mul_small_add(q, 0);
            proof {
                lemma_mod_multiples_vanish(-(q as int), rest@ as int, m);
                assert(m * (-(q as int)) + rest@ == rest@ - part@ && part@ >= m)
                    by (nonlinear_arith)
                    requires
                        part@ == m * q + 0,
                        q >= 1,
                        m >= 1,
                ;
            }
            rest = rest.sub(&part);
        }
        proof {
            lemma_small_mod(rest@, modulus@);
        }
        rest
    }

    /// The remainder of the number on division by `modulus`.
    pub fn rem(&self, modulus: &Natural) -> (r: Natural)
        requires
            modulus@ > 0,
        ensures
            r@ == self@ % modulus@,
    {
        match modulus.to_u64() {
            Some(d) => {
                return Natural::from_u64(self.rem_small(d));
            },
            None => {},
        }
        let mut rest = Natural::zero();
        let mut i: usize = self.limbs.len();
        proof {
            lemma_small_mod(0, modulus@);
        }
        while i > 0
            invariant
                i <= self.limbs@.len(),
                modulus@ > u64::MAX,
                rest@ == upper_value(self.limbs@, i as int) % modulus@,
            decreases i,
        {
            i = i - 1;
            let digit = self.limbs[i];
            proof {
                let m = modulus@ as int;
                let above = upper_value(self.limbs@, i + 1) as int;
                assert(upper_value(self.limbs@, i as int) == digit + radix() * above);
                lemma_mod_bound(above, m);
                lemma_mul_mod_noop_right(radix() as int, above, m);
                lemma_add_mod_noop_right(digit as int, radix() * above, m);
                lemma_add_mod_noop_right(digit as int, radix() * (above % m), m);
                assert((above % m) * radix() == radix() * (above % m)) by (nonlinear_arith);
            }
            rest = rest.push_low_mod(digit, modulus);
        }
        rest
    }
}

} // verus!
