use pollard_p_minus_one::factor::{
    candidate_factor, decide_at_checkpoint, decide_at_end, raise_to_top_power,
};
use pollard_p_minus_one::{factor, FactorError, Natural};

fn number(text: &str) -> Natural {
    Natural::from_decimal(text).unwrap()
}

const LARGE: &str = "117911911918369790919720975317727997203707046601051351826721271874783853131751609098765731046029447933261636972813116742407130875299141787357683469241777658197786984438598371402518887397817933105113479511486553793259993969901597308956327518540097915428630057666285736301168703069467190961313648991101481264839233016190317090643055741947798931130103688323127786904532647620687468212608218188863199140879962414171562373218840608222219318179409091939363954623199073612619845014342755459692145512627408086947448095714986225640631183289881812344329746336161760611271830871349452975544249067994440287113890425199826188613612186351107673851664103933072047542732683713562402036060948844572684056632664596773055801173780758873602639193789440537314216611521223926376339024027089951362455743008120350086811310599752454820913359125946312765341381171153152850875170563953616312588926210782896304893737980820998854277494438718347902663339151120120657027046197432328902168683080077881837105545672276947861515636560467074205889746346122442073078625034985150166912324856625268061689979087512243374265122200504262834119529487103451165541326299486288085114848709493677473563925554053937376804016377427471623240189434460287558957667530232944863319739907";

#[test]
fn from_u64_and_back() {
    for v in [0u64, 1, 2, 299, 0xFFFF_FFFF, 0x1_0000_0000, u64::MAX] {
        assert_eq!(Natural::from_u64(v).to_u64(), Some(v));
        assert_eq!(Natural::from_u64(v).is_zero(), v == 0);
    }
    assert_eq!(Natural::zero(), Natural::from_u64(0));
    assert_eq!(number("18446744073709551615").to_u64(), Some(u64::MAX));
    assert_eq!(number("18446744073709551616").to_u64(), None);
}

#[test]
fn decimal_notation() {
    assert_eq!(Natural::from_decimal(""), None);
    assert_eq!(Natural::from_decimal("12a"), None);
    assert_eq!(Natural::from_decimal("-5"), None);
    assert_eq!(Natural::from_decimal("+5"), None);
    assert_eq!(Natural::from_decimal(" 5"), None);
    assert_eq!(Natural::from_decimal("0"), Some(Natural::zero()));
    assert_eq!(Natural::from_decimal("000299"), Some(Natural::from_u64(299)));
    assert_eq!(Natural::from_u64(0).to_decimal(), "0");
    assert_eq!(Natural::from_u64(10).to_decimal(), "10");
    assert_eq!(Natural::from_u64(u64::MAX).to_decimal(), "18446744073709551615");
    assert_eq!(number(LARGE).to_decimal(), LARGE);
}

#[test]
fn addition_and_subtraction() {
    let a = number("340282366920938463463374607431768211455"); // 2^128 - 1
    let one = Natural::from_u64(1);
    let sum = a.add(&one);
    assert_eq!(sum.to_decimal(), "340282366920938463463374607431768211456");
    assert_eq!(sum.sub(&one), a);
    assert_eq!(sum.sub(&a), one);
    assert_eq!(a.sub(&a), Natural::zero());
    assert_eq!(
        Natural::from_u64(u64::MAX).add(&Natural::from_u64(u64::MAX)).to_decimal(),
        "36893488147419103230"
    );
    assert_eq!(Natural::zero().add(&Natural::zero()), Natural::zero());
}

#[test]
fn comparison() {
    let a = number("340282366920938463463374607431768211455");
    let b = number("340282366920938463463374607431768211456");
    assert!(a.lt(&b));
    assert!(!b.lt(&a));
    assert!(!a.lt(&a));
    assert!(a.le(&a));
    assert!(a.le(&b));
    assert!(!b.le(&a));
    assert!(a.equals(&a.clone()));
    assert!(!a.equals(&b));
    assert!(Natural::zero().lt(&Natural::from_u64(1)));
    assert!(Natural::from_u64(0xFFFF_FFFF).lt(&Natural::from_u64(0x1_0000_0000)));
    assert!(Natural::from_u64(0x1_0000_0001).lt(&Natural::from_u64(0x2_0000_0000)));
}

#[test]
fn multiplication() {
    let a = number("2305843009213693951");
    let b = number("618970019642690137449562111");
    assert_eq!(
        a.mul(&b).to_decimal(),
        "1427247692705959880439315947500961989719490561"
    );
    assert_eq!(b.mul(&a), a.mul(&b));
    assert_eq!(a.mul(&Natural::zero()), Natural::zero());
    assert_eq!(Natural::zero().mul(&a), Natural::zero());
    assert_eq!(a.mul(&Natural::from_u64(1)), a);
    assert_eq!(a.mul_small_add(10, 7).to_decimal(), "23058430092136939517");
    assert_eq!(Natural::zero().mul_small_add(10, 7), Natural::from_u64(7));
}

#[test]
fn division_by_machine_integer() {
    let a = number("1427247692705959880439315947500961989719490561");
    let (q, r) = a.div_rem_small(1000);
    assert_eq!(q.to_decimal(), "1427247692705959880439315947500961989719490");
    assert_eq!(r, 561);
    assert_eq!(a.rem_small(1000), 561);
    assert_eq!(a.rem_small(2305843009213693951), 0);
    assert_eq!(a.rem_small(u64::MAX), 16140901064466497536);
    let (q, r) = Natural::from_u64(7).div_rem_small(10);
    assert_eq!((q, r), (Natural::zero(), 7));
}

#[test]
fn remainder() {
    let a = number("1427247692705959880439315947500961989719490561");
    let small = number("2305843009213693951");
    let large = number("618970019642690137449562111");
    assert_eq!(a.rem(&small), Natural::zero());
    assert_eq!(a.rem(&large), Natural::zero());
    assert_eq!(a.add(&Natural::from_u64(5)).rem(&large), Natural::from_u64(5));
    assert_eq!(large.rem(&a), large);
    let m = number("340282366920938463463374607431768211507");
    assert_eq!(
        a.mul(&a).rem(&m).to_decimal(),
        "5581719122673483125567091046942244865"
    );
    assert_eq!(a.rem(&Natural::from_u64(1)), Natural::zero());
}

#[test]
fn modular_power() {
    let n = Natural::from_u64(299);
    assert_eq!(Natural::from_u64(2).pow_mod(12, &n), Natural::from_u64(209));
    assert_eq!(Natural::from_u64(2).pow_mod(0, &n), Natural::from_u64(1));
    assert_eq!(Natural::from_u64(2).pow_mod(0, &Natural::from_u64(1)), Natural::zero());
    assert_eq!(Natural::zero().pow_mod(0, &n), Natural::from_u64(1));
    assert_eq!(Natural::zero().pow_mod(5, &n), Natural::zero());
    assert_eq!(Natural::from_u64(300).pow_mod(3, &n), Natural::from_u64(1));
    let m = number("340282366920938463463374607431768211507");
    assert_eq!(
        Natural::from_u64(3).pow_mod(u64::MAX, &m).to_decimal(),
        "266928437010100467848280649095306538493"
    );
    // Fermat: 2^(p - 1) is one modulo the prime p = 2^61 - 1
    let p = number("2305843009213693951");
    assert_eq!(
        Natural::from_u64(2).pow_mod(2305843009213693950, &p),
        Natural::from_u64(1)
    );
}

#[test]
fn greatest_common_divisor() {
    let a = number("1427247692705959880439315947500961989719490561");
    let small = number("2305843009213693951");
    assert_eq!(a.gcd(&small), small);
    assert_eq!(small.gcd(&a), small);
    assert_eq!(a.gcd(&Natural::zero()), a);
    assert_eq!(Natural::zero().gcd(&a), a);
    assert_eq!(Natural::zero().gcd(&Natural::zero()), Natural::zero());
    assert_eq!(
        Natural::from_u64(208).gcd(&Natural::from_u64(299)),
        Natural::from_u64(13)
    );
    assert_eq!(
        Natural::from_u64(1 << 40).gcd(&Natural::from_u64(3 << 20)),
        Natural::from_u64(1 << 20)
    );
}

#[test]
fn candidate_from_accumulator() {
    let n = Natural::from_u64(299);
    assert_eq!(candidate_factor(&Natural::from_u64(209), &n), Natural::from_u64(13));
    assert_eq!(candidate_factor(&Natural::from_u64(1), &n), n);
    assert_eq!(candidate_factor(&Natural::zero(), &n), Natural::from_u64(1));
    assert_eq!(candidate_factor(&Natural::from_u64(2), &n), Natural::from_u64(1));
}

#[test]
fn accumulator_raised_to_top_power() {
    let n = Natural::from_u64(299);
    // the largest power of 2 within 20 is 16, that of 3 is 9, that of 19 is 19
    assert_eq!(
        raise_to_top_power(Natural::from_u64(2), 2, 20, &n),
        Natural::from_u64(65536 % 299)
    );
    assert_eq!(
        raise_to_top_power(Natural::from_u64(2), 3, 20, &n),
        Natural::from_u64(512 % 299)
    );
    assert_eq!(
        raise_to_top_power(Natural::from_u64(2), 19, 20, &n),
        Natural::from_u64(524288 % 299)
    );
    assert_eq!(
        raise_to_top_power(Natural::from_u64(2), 20, 20, &n),
        Natural::from_u64(1048576 % 299)
    );
}

#[test]
fn large_composite_has_the_known_factor() {
    let n = number(LARGE);
    let p = Natural::from_u64(348242219231);
    assert_eq!(n.rem(&p), Natural::zero());
    assert_eq!(n.rem_small(348242219231), 0);
    assert_eq!(n.gcd(&p), p);
    // 348242219231 - 1 = 2 * 5 * 53 * 787 * 834893
    let order = 2u64 * 5 * 53 * 787 * 834893;
    assert_eq!(Natural::from_u64(2).pow_mod(order, &p), Natural::from_u64(1));
}

#[test]
fn decisions_on_a_candidate() {
    let n = Natural::from_u64(299);
    let one = Natural::from_u64(1);
    let thirteen = Natural::from_u64(13);
    assert_eq!(decide_at_checkpoint(one.clone(), &n, 7), None);
    assert_eq!(
        decide_at_checkpoint(thirteen.clone(), &n, 7),
        Some(Ok(thirteen.clone()))
    );
    assert_eq!(
        decide_at_checkpoint(n.clone(), &n, 7),
        Some(Err(FactorError::BoundTooLarge(7)))
    );
    assert_eq!(
        decide_at_end(one.clone(), &n, 7),
        Err(FactorError::BoundTooSmall)
    );
    assert_eq!(decide_at_end(thirteen.clone(), &n, 7), Ok(thirteen));
    assert_eq!(
        decide_at_end(n.clone(), &n, 7),
        Err(FactorError::BoundTooLarge(7))
    );
    // for the number one the two checks differ
    assert_eq!(
        decide_at_checkpoint(one.clone(), &one, 7),
        Some(Err(FactorError::BoundTooLarge(7)))
    );
    assert_eq!(
        decide_at_end(one.clone(), &one, 7),
        Err(FactorError::BoundTooSmall)
    );
}

#[test]
fn large_composite_with_a_small_bound() {
    // no prime factor of the composite is covered by the primes up to 100
    assert_eq!(
        factor(number(LARGE), 100),
        Err(String::from("No factors found, b is too small"))
    );
}
