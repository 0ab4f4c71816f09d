//! Positional notation in base 2^32: what a sequence of limbs, least significant
//! first, stands for, and the facts about it that the arithmetic rests on.
use vstd::prelude::*;

verus! {

/// The base of the notation: one limb is one digit in base 2^32.
pub open spec fn radix() -> nat {
    0x1_0000_0000
}

/// The weight of the digit at position `i`, that is `radix()` to the power `i`.
pub open spec fn weight(i: nat) -> nat
    decreases i,
{
    if i == 0 {
        1
    } else {
        radix() * weight((i - 1) as nat)
    }
}

/// The limb at position `i`, and zero beyond the stored limbs.
pub open spec fn limb_or_zero(limbs: Seq<u32>, i: int) -> nat {
    if 0 <= i < limbs.len() {
        limbs[i] as nat
    } else {
        0
    }
}

/// The number written by the limbs at positions `i` and above, the limb at `i`
/// counting as the units digit.
pub open spec fn upper_value(limbs: Seq<u32>, i: int) -> nat
    decreases limbs.len() - i,
{
    if i < 0 || i >= limbs.len() {
        0
    } else {
        limbs[i] as nat + radix() * upper_value(limbs, i + 1)
    }
}

/// The number written by the limbs below position `i`.
pub open spec fn lower_value(limbs: Seq<u32>, i: int) -> nat
    decreases i,
{
    if i <= 0 {
        0
    } else {
        lower_value(limbs, i - 1) + limb_or_zero(limbs, i - 1) * weight((i - 1) as nat)
    }
}

/// The number that a whole sequence of limbs writes.
pub open spec fn limbs_value(limbs: Seq<u32>) -> nat {
    upper_value(limbs, 0)
}

/// A sequence is trimmed when it has no leading zero digit, so that every
/// number has exactly one trimmed notation.
pub open spec fn trimmed(limbs: Seq<u32>) -> bool {
    limbs.len() == 0 || limbs[limbs.len() - 1] != 0
}

/// Every weight is at least one.
pub proof fn lemma_weight_positive(i: nat)
    ensures
        weight(i) >= 1,
    decreases i,
{
    if i > 0 {
        lemma_weight_positive((i - 1) as nat);
        assert(radix() * weight((i - 1) as nat) >= 1) by (nonlinear_arith)
            requires
                weight((i - 1) as nat) >= 1,
                radix() >= 1,
        ;
    }
}

/// A higher position weighs no less.
pub proof fn lemma_weight_monotonic(i: nat, j: nat)
    requires
        i <= j,
    ensures
        weight(i) <= weight(j),
    decreases j,
{
    if i < j {
        lemma_weight_monotonic(i, (j - 1) as nat);
        lemma_weight_positive((j - 1) as nat);
        assert(radix() * weight((j - 1) as nat) >= weight((j - 1) as nat)) by (nonlinear_arith)
            requires
                radix() >= 1,
        ;
    }
}

/// Cutting a number at position `i` loses nothing: the low part plus the high
/// part at its weight is the whole.
pub proof fn lemma_split(limbs: Seq<u32>, i: int)
    requires
        0 <= i <= limbs.len(),
    ensures
        limbs_value(limbs) == lower_value(limbs, i) + weight(i as nat) * upper_value(limbs, i),
    decreases i,
{
    if i > 0 {
        lemma_split(limbs, i - 1);
        let w = weight((i - 1) as nat);
        let d = limbs[i - 1] as nat;
        let u = upper_value(limbs, i);
        assert(upper_value(limbs, i - 1) == d + radix() * u);
        assert(weight(i as nat) == radix() * w);
        assert(lower_value(limbs, i) == lower_value(limbs, i - 1) + d * w);
        assert(w * (d + radix() * u) == d * w + (radix() * w) * u) by (nonlinear_arith);
    } else {
        assert(weight(0) * upper_value(limbs, 0) == upper_value(limbs, 0)) by (nonlinear_arith)
            requires
                weight(0) == 1,
        ;
    }
}

/// Past the last limb the low part is the whole number.
pub proof fn lemma_lower_is_whole(limbs: Seq<u32>, i: int)
    requires
        i >= limbs.len(),
    ensures
        lower_value(limbs, i) == limbs_value(limbs),
    decreases i - limbs.len(),
{
    if i == limbs.len() {
        lemma_split(limbs, i);
        assert(weight(i as nat) * upper_value(limbs, i) == 0) by (nonlinear_arith)
            requires
                upper_value(limbs, i) == 0,
        ;
    } else {
        lemma_lower_is_whole(limbs, i - 1);
        assert(limb_or_zero(limbs, i - 1) * weight((i - 1) as nat) == 0) by (nonlinear_arith)
            requires
                limb_or_zero(limbs, i - 1) == 0,
        ;
    }
}

/// The low part depends on the limbs below the cut alone.
pub proof fn lemma_lower_agrees(a: Seq<u32>, b: Seq<u32>, i: int)
    requires
        forall|j: int| 0 <= j < i ==> limb_or_zero(a, j) == limb_or_zero(b, j),
    ensures
        lower_value(a, i) == lower_value(b, i),
    decreases i,
{
    if i > 0 {
        lemma_lower_agrees(a, b, i - 1);
    }
}

/// The low part below position `i` is less than the weight of position `i`.
pub proof fn lemma_lower_bound(limbs: Seq<u32>, i: int)
    requires
        0 <= i,
    ensures
        lower_value(limbs, i) < weight(i as nat),
    decreases i,
{
    if i > 0 {
        lemma_lower_bound(limbs, i - 1);
        let w = weight((i - 1) as nat);
        let d = limb_or_zero(limbs, i - 1);
        assert(d * w + w <= radix() * w) by (nonlinear_arith)
            requires
                d + 1 <= radix(),
        ;
    }
}

/// A number is less than the weight just past its last limb.
pub proof fn lemma_value_bound(limbs: Seq<u32>)
    ensures
        limbs_value(limbs) < weight(limbs.len()),
{
    lemma_lower_is_whole(limbs, limbs.len() as int);
    lemma_lower_bound(limbs, limbs.len() as int);
}

/// A trimmed, nonempty notation writes a number at least as large as the
/// weight of its leading limb.
pub proof fn lemma_trimmed_value_bound(limbs: Seq<u32>)
    requires
        limbs.len() > 0,
        trimmed(limbs),
    ensures
        limbs_value(limbs) >= weight((limbs.len() - 1) as nat),
{
    let k = limbs.len() - 1;
    lemma_split(limbs, k);
    let w = weight(k as nat);
    let u = upper_value(limbs, k);
    assert(upper_value(limbs, k + 1) == 0);
    assert(u >= 1);
    assert(w * u >= w) by (nonlinear_arith)
        requires
            u >= 1,
    ;
}

/// Removing a leading zero digit leaves the number as it was.
pub proof fn lemma_drop_leading_zero(limbs: Seq<u32>)
    requires
        limbs.len() > 0,
        limbs[limbs.len() - 1] == 0,
    ensures
        limbs_value(limbs.drop_last()) == limbs_value(limbs),
{
    let k = limbs.len() - 1;
    let short = limbs.drop_last();
    lemma_lower_is_whole(short, k);
    lemma_lower_is_whole(limbs, k + 1);
    lemma_lower_agrees(short, limbs, k);
    assert(limb_or_zero(limbs, k) * weight(k as nat) == 0) by (nonlinear_arith)
        requires
            limb_or_zero(limbs, k) == 0,
    ;
}

/// The empty notation writes zero, and zero has no other trimmed notation.
pub proof fn lemma_zero_is_empty(limbs: Seq<u32>)
    requires
        trimmed(limbs),
    ensures
        limbs_value(limbs) == 0 <==> limbs.len() == 0,
{
    if limbs.len() > 0 {
        lemma_trimmed_value_bound(limbs);
        lemma_weight_positive((limbs.len() - 1) as nat);
    }
}

/// Writing one more digit below a number multiplies it by the base and adds
/// the digit.
pub proof fn lemma_low_digit(limbs: Seq<u32>, digit: u32, longer: Seq<u32>)
    requires
        longer.len() == limbs.len() + 1,
        longer[0] == digit,
        forall|j: int| 0 <= j < limbs.len() ==> longer[j + 1] == limbs[j],
    ensures
        limbs_value(longer) == limbs_value(limbs) * radix() + digit,
{
    lemma_upper_shifted(limbs, longer, 0);
    assert(upper_value(longer, 0) == digit + radix() * upper_value(longer, 1));
    assert(radix() * upper_value(limbs, 0) == upper_value(limbs, 0) * radix()) by (nonlinear_arith);
}

/// Moving every digit one position up moves every upper part with it.
pub proof fn lemma_upper_shifted(limbs: Seq<u32>, longer: Seq<u32>, i: int)
    requires
        longer.len() == limbs.len() + 1,
        forall|j: int| 0 <= j < limbs.len() ==> longer[j + 1] == limbs[j],
        0 <= i,
    ensures
        upper_value(longer, i + 1) == upper_value(limbs, i),
    decreases limbs.len() - i,
{
    if i < limbs.len() {
        lemma_upper_shifted(limbs, longer, i + 1);
    }
}

/// A notation of one digit writes that digit.
pub proof fn lemma_single_limb(limbs: Seq<u32>)
    requires
        limbs.len() == 1,
    ensures
        limbs_value(limbs) == limbs[0],
{
    assert(upper_value(limbs, 1) == 0);
}

} // verus!
