use prime_factorization::{factorization, is_prime, pollard_rho, pollard_rho_once};
use rand::Rng;

#[test]
fn factorization_test() {
    assert_eq!(factorization(2), [2]);
    assert_eq!(factorization(3), [3]);
    assert_eq!(factorization(4), [2, 2]);
    assert_eq!(factorization(5), [5]);
    assert_eq!(factorization(6), [2, 3]);
    assert_eq!(factorization(7), [7]);
    assert_eq!(factorization(8), [2, 2, 2]);
    assert_eq!(factorization(9), [3, 3]);
    assert_eq!(factorization(10), [2, 5]);

    let test = |x| {
        let fs = factorization(x);
        assert!(fs.iter().all(|&f| is_prime(f)));
        assert_eq!(fs.iter().product::<u128>(), x);
    };

    for x in 2..1000 {
        test(x);
    }

    for _ in 0..1000 {
        let x = rand::thread_rng().gen_range(2, u64::MAX as u128);
        test(x);
    }
}

#[test]
fn factorization_of_named_numbers() {
    assert_eq!(factorization(12), [2, 2, 3]);
    assert_eq!(factorization(997), [997]);
    assert_eq!(factorization(100), [2, 2, 5, 5]);
}

#[test]
fn factorization_of_a_prime_is_the_prime() {
    for &p in [2u128, 3, 5, 7919, 999999999989, 999999999999999989, (1 << 127) - 1].iter() {
        assert_eq!(factorization(p), [p]);
    }
    for &f in factorization(600851475143).iter() {
        assert_eq!(factorization(f), [f]);
    }
}

#[test]
fn factorization_of_prime_powers() {
    assert_eq!(factorization(1 << 64), [2u128; 64]);
    assert_eq!(factorization(1 << 127), [2u128; 127]);
    assert_eq!(factorization(25), [5, 5]);
    assert_eq!(factorization(3u128.pow(40)), [3u128; 40]);
    assert_eq!(factorization(1000000007 * 1000000007), [1000000007, 1000000007]);
}

#[test]
fn factorization_is_ascending() {
    for x in 2..3000u128 {
        let fs = factorization(x);
        assert!(fs.windows(2).all(|w| w[0] <= w[1]), "x = {}", x);
    }
    // Whatever order the factors are found in, they come back sorted.
    assert_eq!(factorization(2 * 3 * 5 * 7 * 11 * 13), [2, 3, 5, 7, 11, 13]);
    assert_eq!(factorization(13 * 13 * 2 * 11 * 11 * 3), [2, 3, 11, 11, 13, 13]);
}

#[test]
fn factorization_of_larger_numbers() {
    assert_eq!(factorization(600851475143), [71, 839, 1471, 6857]);
    assert_eq!(
        factorization(1234567890123456789),
        [3, 3, 101, 3541, 3607, 3803, 27961]
    );
    assert_eq!(
        factorization(1000000016000000063),
        [1000000007, 1000000009]
    );
    assert_eq!(
        factorization(18446744073709551617),
        [274177, 67280421310721]
    );
    assert_eq!(
        factorization(18446744073709551615),
        [3, 5, 17, 257, 641, 65537, 6700417]
    );
    assert_eq!(
        factorization(u128::MAX),
        [3, 5, 17, 257, 641, 65537, 274177, 6700417, 67280421310721]
    );
}

#[test]
fn pollard_rho_once_follows_the_batches() {
    assert_eq!(pollard_rho_once(8051, 2), Some(97));
    assert_eq!(pollard_rho_once(10403, 2), Some(101));
    assert_eq!(pollard_rho_once(9, 2), Some(3));
    assert_eq!(pollard_rho_once(15, 2), Some(3));
    assert_eq!(pollard_rho_once(91, 2), Some(7));
    assert_eq!(pollard_rho_once(6, 2), Some(3));
    assert_eq!(pollard_rho_once(1000000016000000063, 2), Some(1000000009));
    assert_eq!(pollard_rho_once(18446744073709551617, 2), Some(274177));
    assert_eq!(pollard_rho_once(u128::MAX, 2), Some(3));
    assert_eq!(pollard_rho_once(u128::MAX, u128::MAX - 1), Some(3));
}

#[test]
fn pollard_rho_once_gives_up_when_the_sequence_closes() {
    assert_eq!(pollard_rho_once(4, 2), None);
    assert_eq!(pollard_rho_once(4, 3), None);
    assert_eq!(pollard_rho_once(8, 2), None);
    assert_eq!(pollard_rho_once(8, 3), None);
    assert_eq!(pollard_rho_once(25, 2), None);
    // On a prime every search closes without a factor.
    assert_eq!(pollard_rho_once(2, 5), None);
    assert_eq!(pollard_rho_once(7, 3), None);
    for seed in 0..97 {
        assert_eq!(pollard_rho_once(97, seed), None);
    }
}

#[test]
fn pollard_rho_takes_the_first_fruitful_seed() {
    assert_eq!(pollard_rho(6), 3);
    assert_eq!(pollard_rho(9), 3);
    assert_eq!(pollard_rho(91), 7);
    assert_eq!(pollard_rho(8051), 97);
    // The seeds 2 and 3 fail for 8 and the seed 2 fails for 32.
    assert_eq!(pollard_rho(8), 4);
    assert_eq!(pollard_rho(32), 16);
    assert_eq!(pollard_rho(1241), 17);
    assert_eq!(pollard_rho(1 << 64), 32);
}

#[test]
fn pollard_rho_falls_back_on_the_smallest_divisor() {
    // No seed gives a factor of 4 or of 25.
    for seed in 2..4 {
        assert_eq!(pollard_rho_once(4, seed), None);
    }
    for seed in 2..25 {
        assert_eq!(pollard_rho_once(25, seed), None);
    }
    assert_eq!(pollard_rho(4), 2);
    assert_eq!(pollard_rho(25), 5);
}

#[test]
fn pollard_rho_finds_a_proper_factor() {
    for n in 4..3000u128 {
        if !is_prime(n) {
            let f = pollard_rho(n);
            assert!(1 < f && f < n && n % f == 0, "n = {}, f = {}", n, f);
        }
    }
}
