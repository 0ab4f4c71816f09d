use pollard_p_minus_one::{factor, stage_one, FactorError, Natural};

fn too_small() -> Result<Natural, String> {
    Err(String::from("No factors found, b is too small"))
}

fn too_large(last_prime: usize) -> Result<Natural, String> {
    Err(format!(
        "No factors found, b is too large. Last prime checked was {}",
        last_prime
    ))
}

#[test]
fn small_test() {
    let n = Natural::from_u64(299); // 299 = 13 * 23
    let b = 4;
    assert_eq!(factor(n, b), Ok(Natural::from_u64(13)));
}

#[test]
fn bound_of_one_is_too_small() {
    assert_eq!(factor(Natural::from_u64(299), 1), too_small());
    assert_eq!(
        stage_one(&Natural::from_u64(299), 1),
        Err(FactorError::BoundTooSmall)
    );
}

#[test]
fn bound_below_two_is_too_small_for_every_number() {
    for n in [0u64, 1, 2, 3, 4, 299, 1 << 40] {
        assert_eq!(factor(Natural::from_u64(n), 0), too_small());
        assert_eq!(factor(Natural::from_u64(n), 1), too_small());
    }
}

#[test]
fn bound_too_small_for_both_factors() {
    // 12 = 4 * 3 needs the prime 3, and 22 = 2 * 11 needs the prime 11
    assert_eq!(factor(Natural::from_u64(299), 2), too_small());
    assert_eq!(factor(Natural::from_u64(299), 3), too_small());
}

#[test]
fn bound_covering_both_factors_is_too_large() {
    // 12 and 22 both divide 8 * 9 * 5 * 7 * 11
    assert_eq!(
        factor(Natural::from_u64(299), 11),
        Err(String::from(
            "No factors found, b is too large. Last prime checked was 11"
        ))
    );
    // the largest prime within 12 is 11
    assert_eq!(factor(Natural::from_u64(299), 12), too_large(11));
    assert_eq!(factor(Natural::from_u64(299), 13), too_large(13));
    assert_eq!(
        stage_one(&Natural::from_u64(299), 11),
        Err(FactorError::BoundTooLarge(11))
    );
}

#[test]
fn bound_between_the_two_finds_the_smoother_factor() {
    for b in 4..11 {
        assert_eq!(
            factor(Natural::from_u64(299), b),
            Ok(Natural::from_u64(13))
        );
    }
}

#[test]
fn checkpoint_names_last_prime() {
    // the 10000th prime is 104729; by then two to the exponent is one modulo 299
    assert_eq!(
        factor(Natural::from_u64(299), 200000),
        Err(String::from(
            "No factors found, b is too large. Last prime checked was 104729"
        ))
    );
    assert_eq!(
        stage_one(&Natural::from_u64(299), 104729),
        Err(FactorError::BoundTooLarge(104729))
    );
    // one prime short of the checkpoint the end decides, and names the
    // largest prime within the bound
    assert_eq!(
        stage_one(&Natural::from_u64(299), 104728),
        Err(FactorError::BoundTooLarge(104723))
    );
}

#[test]
fn checkpoint_finds_factor_that_the_end_would_lose() {
    // 2723747 = 13 * 209519, and 209519 - 1 = 2 * 104759 with 104759 prime:
    // at the checkpoint after 104729 only 13 is covered, at the end both are
    let n = 2723747;
    assert_eq!(
        factor(Natural::from_u64(n), 104759),
        Ok(Natural::from_u64(13))
    );
    assert_eq!(
        factor(Natural::from_u64(n), 104729),
        Ok(Natural::from_u64(13))
    );
    assert_eq!(
        factor(Natural::from_u64(n), 104728),
        Ok(Natural::from_u64(13))
    );
}

#[test]
fn checkpoint_finds_known_eleven_digit_factor() {
    // 348242219231 - 1 = 2 * 5 * 53 * 787 * 834893, and
    // 4195259 - 1 = 2 * 2097629 lies beyond the bound
    let n = Natural::from_u64(348242219231).mul(&Natural::from_u64(4195259));
    assert_eq!(n, Natural::from_u64(1460966304408825829));
    assert_eq!(
        factor(n, 1 << 21),
        Ok(Natural::from_u64(348242219231))
    );
}

#[test]
fn least_bound_for_known_factor() {
    let n = Natural::from_u64(1460966304408825829);
    assert_eq!(
        factor(n.clone(), 834893),
        Ok(Natural::from_u64(348242219231))
    );
    assert_eq!(factor(n, 834892), too_small());
}

#[test]
fn number_one_at_checkpoint_and_at_end() {
    assert_eq!(
        stage_one(&Natural::from_u64(1), 200000),
        Err(FactorError::BoundTooLarge(104729))
    );
    assert_eq!(
        stage_one(&Natural::from_u64(1), 5),
        Err(FactorError::BoundTooSmall)
    );
}

#[test]
fn even_numbers_and_prime_powers() {
    assert_eq!(factor(Natural::from_u64(2), 5), too_small());
    assert_eq!(factor(Natural::from_u64(4), 5), too_small());
    assert_eq!(factor(Natural::from_u64(14), 2), too_small());
    assert_eq!(factor(Natural::from_u64(254), 7), Ok(Natural::from_u64(127)));
    assert_eq!(factor(Natural::from_u64(9), 5), too_large(5));
    assert_eq!(factor(Natural::from_u64(15), 2), Ok(Natural::from_u64(3)));
    assert_eq!(factor(Natural::from_u64(15), 4), too_large(3));
}

#[test]
fn product_of_two_mersenne_primes() {
    // two has the order 61 modulo 2^61 - 1 and the order 89 modulo 2^89 - 1
    let small = Natural::from_decimal("2305843009213693951").unwrap();
    let large = Natural::from_decimal("618970019642690137449562111").unwrap();
    let n = small.mul(&large);
    assert_eq!(
        n.to_decimal(),
        "1427247692705959880439315947500961989719490561"
    );
    assert_eq!(factor(n.clone(), 60), too_small());
    assert_eq!(factor(n.clone(), 61), Ok(small.clone()));
    assert_eq!(factor(n.clone(), 88), Ok(small));
    assert_eq!(factor(n.clone(), 89), too_large(89));
    assert_eq!(factor(n, 96), too_large(89));
}

#[test]
fn returned_factor_divides_evenly() {
    for (n, b) in [(299u64, 4usize), (299, 7), (15, 3), (254, 7), (2723747, 20)] {
        let number = Natural::from_u64(n);
        let d = factor(number.clone(), b).unwrap();
        assert!(Natural::from_u64(1).lt(&d));
        assert!(d.lt(&number));
        assert!(number.rem(&d).is_zero());
    }
}

#[test]
fn repeated_calls_agree() {
    for (n, b) in [(299u64, 4usize), (299, 1), (299, 11), (299, 104729)] {
        assert_eq!(
            factor(Natural::from_u64(n), b),
            factor(Natural::from_u64(n), b)
        );
    }
}

#[test]
fn checkpoints_keep_the_kind_of_outcome() {
    // with the bound one prime short of a checkpoint, the end alone decides;
    // with the checkpoint, the same kind of outcome comes earlier
    assert_eq!(
        stage_one(&Natural::from_u64(299), 104728),
        Err(FactorError::BoundTooLarge(104723))
    );
    assert_eq!(
        stage_one(&Natural::from_u64(299), 104729),
        Err(FactorError::BoundTooLarge(104729))
    );
    let n = Natural::from_u64(1460966304408825829);
    assert_eq!(stage_one(&n, 104728), Err(FactorError::BoundTooSmall));
    assert_eq!(stage_one(&n, 104729), Err(FactorError::BoundTooSmall));
}

#[test]
fn error_messages() {
    assert_eq!(
        FactorError::BoundTooSmall.message(),
        "No factors found, b is too small"
    );
    assert_eq!(
        FactorError::BoundTooLarge(7).message(),
        "No factors found, b is too large. Last prime checked was 7"
    );
    assert_eq!(
        FactorError::BoundTooLarge(18446744073709551557).message(),
        "No factors found, b is too large. Last prime checked was 18446744073709551557"
    );
    assert_eq!(
        FactorError::BoundTooLarge(0).message(),
        "No factors found, b is too large. Last prime checked was 0"
    );
}

#[test]
fn sweep_reaches_the_end_of_the_sieve() {
    // 1966080 is two full segments of the sieve, and 1966079 is a prime
    assert_eq!(factor(Natural::from_u64(2), 1966078), too_small());
    assert_eq!(factor(Natural::from_u64(2), 1966079), too_small());
    assert_eq!(factor(Natural::from_u64(2), 1966080), too_small());
    assert_eq!(factor(Natural::from_u64(2), 983040), too_small());
    assert_eq!(factor(Natural::from_u64(2), 983039), too_small());
}

#[test]
fn bound_that_is_itself_the_last_prime() {
    // the prime 3 is the bound: it is examined, and named
    assert_eq!(factor(Natural::from_u64(15), 3), Ok(Natural::from_u64(3)));
    assert_eq!(factor(Natural::from_u64(7), 3), too_large(3));
    assert_eq!(factor(Natural::from_u64(3), 2), too_large(2));
    assert_eq!(factor(Natural::from_u64(299), 23), too_large(23));
}
