use prime_factorization::wide::{add_mod, widening_mul, U256};
use prime_factorization::{gcd, mul_mod, pow_mod, smallest_divisor};

#[test]
fn widening_mul_keeps_the_high_half() {
    let w = widening_mul(u128::MAX, u128::MAX);
    assert_eq!(w.hi, 340282366920938463463374607431768211454);
    assert_eq!(w.lo, 1);
    let w = widening_mul(
        0x123456789abcdef0fedcba9876543210,
        0xfedcba98765432100123456789abcdef,
    );
    assert_eq!(w.hi, 0x121fa00ad77d7423213d0003e234949a);
    assert_eq!(w.lo, 0xaa6c876160ec6a522236d88fe5618cf0);
    let w = widening_mul(0, u128::MAX);
    assert_eq!((w.hi, w.lo), (0, 0));
    let w = widening_mul(1 << 64, 1 << 64);
    assert_eq!((w.hi, w.lo), (1, 0));
    let w = widening_mul(12345, 6789);
    assert_eq!((w.hi, w.lo), (0, 83810205));
}

#[test]
fn wide_remainder() {
    let w = U256 { hi: u128::MAX, lo: 5 };
    assert_eq!(w.rem(1000000007), 513212994);
    let w = U256 { hi: u128::MAX, lo: u128::MAX };
    assert_eq!(w.rem(u128::MAX), 0);
    assert_eq!(w.rem(u128::MAX - 1), 3);
    assert_eq!(w.rem(1), 0);
    let w = U256 { hi: 0, lo: 100 };
    assert_eq!(w.rem(7), 2);
    let w = U256 { hi: 1, lo: 0 };
    assert_eq!(w.rem(u128::MAX), 1);
}

#[test]
fn add_mod_wraps_once() {
    assert_eq!(add_mod(3, 4, 5), 2);
    assert_eq!(add_mod(0, 0, 1), 0);
    assert_eq!(add_mod(u128::MAX - 1, u128::MAX - 1, u128::MAX), u128::MAX - 2);
    assert_eq!(add_mod(2, 2, 10), 4);
}

#[test]
fn mul_mod_small_values() {
    assert_eq!(mul_mod(3, 4, 5), 2);
    assert_eq!(mul_mod(0, 99, 7), 0);
    assert_eq!(mul_mod(10, 10, 1), 0);
    assert_eq!(mul_mod(123456789, 987654321, 1000000007), 259106859);
}

#[test]
fn mul_mod_near_the_128_bit_boundary() {
    let m = u128::MAX;
    assert_eq!(mul_mod(m - 1, m - 1, m), 1);
    assert_eq!(mul_mod(1 << 127, 4, m), 2);
    assert_eq!(mul_mod(m, m, m - 1), 1);
    let cases: [(u128, u128, u128, u128); 6] = [
        (
            279465158934149700935886463558486303824,
            198312484241472401536209650552541253675,
            304492656810178217310291611588755895352,
            295776960229649721993682671668672353920,
        ),
        (
            142296611445275798544334485869926371544,
            187511663845513135275015529792981306255,
            243199189504726237632579391127419421813,
            60918740409844321985430672990493708784,
        ),
        (
            16874368708971697930179439133948970191,
            189423249255895934164006845491935173324,
            191191747649702802405099069158627178165,
            169613054050826458909396293385696822044,
        ),
        (
            194271862749270911701471291964587370148,
            232073492410828643875980809038366026296,
            312766809091617264734939871844822718155,
            179899645931900760393453825212726018028,
        ),
        (
            192044578694111089155019772309532113705,
            168921097979293146671565599585786267060,
            203295090537341600710177799718933878087,
            114926432966054137177976045958547349071,
        ),
        (
            102169481102401468981912840365844274171,
            116878720008775839257888946927095203617,
            254676369593887978442897089202571437104,
            196234628859305950964628310252574667979,
        ),
    ];
    for &(a, b, m, expected) in cases.iter() {
        assert_eq!(mul_mod(a, b, m), expected);
        assert_eq!(mul_mod(b, a, m), expected);
    }
}

#[test]
fn mul_mod_agrees_with_native_arithmetic_on_64_bit_operands() {
    let mut x: u128 = 0x9e3779b97f4a7c15;
    for _ in 0..1000 {
        x = (x * 6364136223846793005 + 1442695040888963407) % (1 << 64);
        let a = x;
        x = (x * 6364136223846793005 + 1442695040888963407) % (1 << 64);
        let b = x;
        x = (x * 6364136223846793005 + 1442695040888963407) % (1 << 64);
        let m = x + 1;
        assert_eq!(mul_mod(a, b, m), (a * b) % m);
    }
}

#[test]
fn pow_mod_values() {
    assert_eq!(pow_mod(2, 10, 1000), 24);
    assert_eq!(pow_mod(5, 0, 1), 0);
    assert_eq!(pow_mod(0, 0, 7), 1);
    assert_eq!(pow_mod(3, 1, 2), 1);
    assert_eq!(pow_mod(0, 5, 7), 0);
    assert_eq!(pow_mod(7, 123456789, (1 << 64) + 13), 8521675124358482675);
    let p: u128 = (1 << 127) - 1;
    assert_eq!(pow_mod(3, p - 1, p), 1);
    assert_eq!(pow_mod(2, 1000000000000000000000000000000, u128::MAX), 1);
    assert_eq!(pow_mod(u128::MAX, u128::MAX, u128::MAX - 1), 1);
}

#[test]
fn gcd_values() {
    assert_eq!(gcd(12, 18), 6);
    assert_eq!(gcd(18, 12), 6);
    assert_eq!(gcd(0, 0), 0);
    assert_eq!(gcd(7, 0), 7);
    assert_eq!(gcd(0, 7), 7);
    assert_eq!(gcd(17, 5), 1);
    assert_eq!(gcd(u128::MAX, u128::MAX - 1), 1);
    assert_eq!(gcd(u128::MAX, 3 * 5 * 17), 255);
    assert_eq!(gcd(1 << 100, 1 << 90), 1 << 90);
}

#[test]
fn smallest_divisor_values() {
    assert_eq!(smallest_divisor(2), 2);
    assert_eq!(smallest_divisor(4), 2);
    assert_eq!(smallest_divisor(25), 5);
    assert_eq!(smallest_divisor(91), 7);
    assert_eq!(smallest_divisor(97), 97);
    assert_eq!(smallest_divisor(1000000016000000063), 1000000007);
    assert_eq!(smallest_divisor(999999999989), 999999999989);
}
