use prime_factorization::{
    is_prime, miller_rabin_round, miller_rabin_test, split_power_of_two, MillerRabinResult,
};

#[test]
fn miller_rabin() {
    assert_eq!(miller_rabin_test(4, 100), MillerRabinResult::Composite);
    assert_eq!(miller_rabin_test(5, 100), MillerRabinResult::ProbablyPrime);
    assert_eq!(miller_rabin_test(6, 100), MillerRabinResult::Composite);
    assert_eq!(miller_rabin_test(7, 100), MillerRabinResult::ProbablyPrime);
    assert_eq!(miller_rabin_test(8, 100), MillerRabinResult::Composite);
    assert_eq!(miller_rabin_test(9, 100), MillerRabinResult::Composite);
    assert_eq!(miller_rabin_test(10, 100), MillerRabinResult::Composite);

    let primes = [
        241393502644931236824083437316691947053,
        203851774287909279562700874830405601907,
        288998372467163468683539125188698897449,
        189822170223895762265064303540250435637,
        328089814025503192461392250603431433007,
        296924869529206030921754222802047897761,
        239796305212141579879826223504530404303,
        183793893507075905518837979761809022117,
    ];

    for &p in primes.iter() {
        assert_eq!(miller_rabin_test(p, 100), MillerRabinResult::ProbablyPrime);
    }

    let composites = [
        123818405246410390178707765938870261443,
        202383583825519051662160491314347582777,
        167210971201646539721622042892407080737,
        117531937261998017622502744988913176479,
        212783729721844122818518594528126775039,
        305792237550134519087322660700463788397,
        93694064147469858944238195598447143569,
        132633955283692567229336700018758707763,
    ];

    for &c in composites.iter() {
        assert_eq!(miller_rabin_test(c, 100), MillerRabinResult::Composite);
    }
}

#[test]
fn is_prime_classifies_zero_to_ten() {
    let expected = [
        false, false, true, true, false, true, false, true, false, false, false,
    ];
    for n in 0..=10u128 {
        assert_eq!(is_prime(n), expected[n as usize], "n = {}", n);
    }
}

#[test]
fn is_prime_agrees_with_trial_division_below_two_thousand() {
    for n in 0..2000u128 {
        let by_division = n >= 2 && (2..n).take_while(|d| d * d <= n).all(|d| n % d != 0);
        assert_eq!(is_prime(n), by_division, "n = {}", n);
    }
}

#[test]
fn zero_rounds_report_probably_prime() {
    assert_eq!(miller_rabin_test(4, 0), MillerRabinResult::ProbablyPrime);
    assert_eq!(miller_rabin_test(9, 0), MillerRabinResult::ProbablyPrime);
}

#[test]
fn split_power_of_two_gives_exponent_and_odd_part() {
    assert_eq!(split_power_of_two(1), (0, 1));
    assert_eq!(split_power_of_two(96), (5, 3));
    assert_eq!(split_power_of_two(12), (2, 3));
    assert_eq!(split_power_of_two(1 << 127), (127, 1));
    assert_eq!(split_power_of_two(u128::MAX), (0, u128::MAX));
    assert_eq!(split_power_of_two(2046), (1, 1023));
}

fn round(n: u128, a: u128) -> bool {
    let (r, d) = split_power_of_two(n - 1);
    miller_rabin_round(n, r, d, a)
}

#[test]
fn every_base_speaks_for_a_prime() {
    for &p in [5u128, 7, 13, 97, 257, 7919].iter() {
        for a in 2..=p - 2 {
            assert!(round(p, a), "p = {}, a = {}", p, a);
        }
    }
    let mersenne: u128 = (1 << 127) - 1;
    for a in [2u128, 3, 5, 1 << 100, mersenne - 2].iter() {
        assert!(round(mersenne, *a));
    }
}

#[test]
fn rounds_on_composites() {
    // No base between 2 and 7 speaks for 9; 7 and 18 alone speak for 25.
    for a in 2..=7 {
        assert!(!round(9, a));
    }
    for a in 2..=23 {
        assert_eq!(round(25, a), a == 7 || a == 18, "a = {}", a);
    }
    // 2047 = 23 * 89 is a strong pseudoprime to the base 2, not to 3.
    assert!(round(2047, 2));
    assert!(!round(2047, 3));
    // 561 is a Carmichael number, yet the base 2 shows it to be composite.
    assert!(!round(561, 2));
    // 3215031751 is a strong pseudoprime to 2, 3, 5 and 7, not to 11.
    assert!(round(3215031751, 2));
    assert!(round(3215031751, 3));
    assert!(round(3215031751, 5));
    assert!(round(3215031751, 7));
    assert!(!round(3215031751, 11));
    // Even numbers: the chain has a single place.
    assert!(!round(4, 2));
    assert!(!round(6, 4));
}

#[test]
fn pseudoprimes_to_a_single_base_are_found_out() {
    // Each of these passes a round with the base 2, so a test that tried
    // the same base over and over would take it for a prime.
    for &n in [2047u128, 3277, 4033, 4681, 8321, 3215031751].iter() {
        assert!(round(n, 2));
        assert!(!is_prime(n), "n = {}", n);
        assert_eq!(miller_rabin_test(n, 100), MillerRabinResult::Composite);
    }
    // The base n - 1 speaks for every odd number.
    for &n in [9u128, 15, 21, 25, 2047].iter() {
        assert!(round(n, n - 1));
        assert!(!is_prime(n));
    }
}

#[test]
fn known_large_numbers() {
    assert!(is_prime(241393502644931236824083437316691947053));
    assert!(!is_prime(123818405246410390178707765938870261443));
    assert!(is_prime((1 << 127) - 1));
    assert!(is_prime(999999999999999989));
    assert!(!is_prime(u128::MAX));
    assert!(!is_prime(1000000016000000063));
}
