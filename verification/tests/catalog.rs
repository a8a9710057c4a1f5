use num_bigint::BigUint;
use shamir::mersenne_primes::MersennePrimes;

fn two_to_the(exponent: u32) -> BigUint {
    BigUint::from(1u32) << exponent
}

#[test]
fn first_level_is_three() {
    let catalog = MersennePrimes::new();
    assert_eq!(catalog.get_mersenne_prime(0), BigUint::from(3u32));
}

#[test]
fn small_levels_are_the_known_primes() {
    let catalog = MersennePrimes::new();
    assert_eq!(catalog.get_mersenne_prime(1), BigUint::from(7u32));
    assert_eq!(catalog.get_mersenne_prime(2), BigUint::from(31u32));
    assert_eq!(catalog.get_mersenne_prime(3), BigUint::from(127u32));
    assert_eq!(catalog.get_mersenne_prime(4), BigUint::from(8191u32));
    assert_eq!(catalog.get_mersenne_prime(5), BigUint::from(131071u32));
    assert_eq!(catalog.get_mersenne_prime(7), BigUint::from(2147483647u32));
}

#[test]
fn level_thirteen_has_exponent_521() {
    let catalog = MersennePrimes::new();
    assert_eq!(
        catalog.get_mersenne_prime(12),
        two_to_the(521) - BigUint::from(1u32)
    );
    assert_eq!(
        catalog.get_mersenne_prime(13),
        two_to_the(607) - BigUint::from(1u32)
    );
}

#[test]
fn last_level_has_exponent_4253() {
    let catalog = MersennePrimes::new();
    let prime = catalog.get_mersenne_prime(18);
    assert_eq!(prime.bits(), 4253);
    assert_eq!(prime + BigUint::from(1u32), two_to_the(4253));
}

#[test]
fn every_level_is_one_less_than_a_power_of_two() {
    let catalog = MersennePrimes::new();
    let exponents: [u32; 19] = [
        2, 3, 5, 7, 13, 17, 19, 31, 61, 89, 107, 127, 521, 607, 1279, 2203, 2281, 3217, 4253,
    ];
    for (level, exponent) in exponents.iter().enumerate() {
        assert_eq!(
            catalog.get_mersenne_prime(level) + BigUint::from(1u32),
            two_to_the(*exponent)
        );
    }
}
