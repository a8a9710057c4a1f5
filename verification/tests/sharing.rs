use num_bigint::BigUint;
use shamir::error::ShamirError;
use shamir::mersenne_primes::MersennePrimes;
use shamir::shamir_secret::{all_distinct, ShamirSecret};

fn big(n: u64) -> BigUint {
    BigUint::from(n)
}

fn pick(pool: &[(usize, BigUint)], indices: &[usize]) -> Vec<(usize, BigUint)> {
    indices
        .iter()
        .map(|i| pool.iter().find(|share| share.0 == *i).unwrap().clone())
        .collect()
}

#[test]
fn split_42_into_five_shares_and_recover_from_three() {
    let shamir = ShamirSecret::new(big(8191));
    let (secret, pool) = shamir.make_random_shamir_pool(big(42), 3, 5).unwrap();
    assert_eq!(secret, big(42));
    assert_eq!(pool.len(), 5);
    for (position, share) in pool.iter().enumerate() {
        assert_eq!(share.0, position + 1);
        assert!(share.1 < big(8191));
    }
    assert_eq!(shamir.recover_secret(&pick(&pool, &[1, 2, 3])), Ok(big(42)));
    assert_eq!(shamir.recover_secret(&pick(&pool, &[2, 4, 5])), Ok(big(42)));
    assert_eq!(shamir.recover_secret(&pick(&pool, &[1, 3, 5])), Ok(big(42)));
    let below_threshold = shamir.recover_secret(&pick(&pool, &[1, 2])).unwrap();
    assert!(below_threshold < big(8191));
}

#[test]
fn more_shares_than_the_threshold_recover_too() {
    let shamir = ShamirSecret::new(big(8191));
    let (_, pool) = shamir.make_random_shamir_pool(big(4242), 3, 6).unwrap();
    assert_eq!(shamir.recover_secret(&pool), Ok(big(4242)));
    assert_eq!(shamir.recover_secret(&pick(&pool, &[6, 1, 4, 2])), Ok(big(4242)));
}

#[test]
fn the_order_of_the_shares_does_not_matter() {
    let shamir = ShamirSecret::new(big(8191));
    let (_, pool) = shamir.make_random_shamir_pool(big(777), 3, 5).unwrap();
    assert_eq!(shamir.recover_secret(&pick(&pool, &[5, 1, 3])), Ok(big(777)));
    assert_eq!(shamir.recover_secret(&pick(&pool, &[3, 5, 1])), Ok(big(777)));
}

#[test]
fn every_three_of_five_shares_recover_the_secret() {
    let shamir = ShamirSecret::new(big(8191));
    let (_, pool) = shamir.make_random_shamir_pool(big(8190), 3, 5).unwrap();
    for a in 1..=5usize {
        for b in (a + 1)..=5 {
            for c in (b + 1)..=5 {
                assert_eq!(shamir.recover_secret(&pick(&pool, &[a, b, c])), Ok(big(8190)));
            }
        }
    }
}

#[test]
fn shares_of_a_known_polynomial() {
    let shamir = ShamirSecret::new(big(8191));
    let poly = vec![big(42), big(5), big(7)];
    let pool = shamir.shares_from_polynomial(&poly, 5);
    assert_eq!(
        pool,
        vec![
            (1, big(54)),
            (2, big(80)),
            (3, big(120)),
            (4, big(174)),
            (5, big(242)),
        ]
    );
    assert_eq!(shamir.recover_secret(&pool[..3]), Ok(big(42)));
    assert_eq!(shamir.recover_secret(&pool[2..]), Ok(big(42)));
}

#[test]
fn two_shares_of_a_quadratic_give_the_line_through_them() {
    let shamir = ShamirSecret::new(big(8191));
    // Through (1, 54) and (2, 80) the line is 28 + 26 x.
    let shares = vec![(1, big(54)), (2, big(80))];
    assert_eq!(shamir.recover_secret(&shares), Ok(big(28)));
}

#[test]
fn interpolation_at_other_points() {
    let shamir = ShamirSecret::new(big(8191));
    let xs = vec![big(1), big(2), big(3)];
    let ys = vec![big(54), big(80), big(120)];
    assert_eq!(shamir.lagrange_interpolation(&big(0), &xs, &ys), Ok(big(42)));
    assert_eq!(shamir.lagrange_interpolation(&big(4), &xs, &ys), Ok(big(174)));
    assert_eq!(shamir.lagrange_interpolation(&big(5), &xs, &ys), Ok(big(242)));
    assert_eq!(shamir.lagrange_interpolation(&big(2), &xs, &ys), Ok(big(80)));
}

#[test]
fn interpolation_wraps_negative_differences() {
    let shamir = ShamirSecret::new(big(7));
    // The line 3 + 2 x modulo 7 through x = 5 and x = 6: values 6 and 1.
    let xs = vec![big(5), big(6)];
    let ys = vec![big(6), big(1)];
    assert_eq!(shamir.lagrange_interpolation(&big(0), &xs, &ys), Ok(big(3)));
    assert_eq!(shamir.lagrange_interpolation(&big(1), &xs, &ys), Ok(big(5)));
}

#[test]
fn threshold_above_the_number_of_shares_is_refused() {
    let shamir = ShamirSecret::new(big(8191));
    assert_eq!(
        shamir.make_random_shamir_pool(big(42), 6, 5),
        Err(ShamirError::InvalidParameters)
    );
    assert_eq!(
        shamir.make_random_shamir_pool(big(42), 1, 0),
        Err(ShamirError::InvalidParameters)
    );
}

#[test]
fn threshold_equal_to_the_number_of_shares_is_accepted() {
    let shamir = ShamirSecret::new(big(8191));
    let (_, pool) = shamir.make_random_shamir_pool(big(1), 4, 4).unwrap();
    assert_eq!(pool.len(), 4);
    assert_eq!(shamir.recover_secret(&pool), Ok(big(1)));
}

#[test]
fn threshold_of_one_or_zero_gives_constant_shares() {
    let shamir = ShamirSecret::new(big(8191));
    for minimum in [0usize, 1] {
        let (secret, pool) = shamir.make_random_shamir_pool(big(99), minimum, 3).unwrap();
        assert_eq!(secret, big(99));
        assert_eq!(pool, vec![(1, big(99)), (2, big(99)), (3, big(99))]);
    }
}

#[test]
fn no_shares_asked_for() {
    let shamir = ShamirSecret::new(big(8191));
    let (secret, pool) = shamir.make_random_shamir_pool(big(5), 0, 0).unwrap();
    assert_eq!(secret, big(5));
    assert!(pool.is_empty());
}

#[test]
fn fewer_than_two_shares_are_insufficient() {
    let shamir = ShamirSecret::new(big(8191));
    assert_eq!(
        shamir.recover_secret(&[]),
        Err(ShamirError::InsufficientShares)
    );
    assert_eq!(
        shamir.recover_secret(&[(1, big(54))]),
        Err(ShamirError::InsufficientShares)
    );
}

#[test]
fn duplicate_indices_are_refused() {
    let shamir = ShamirSecret::new(big(8191));
    assert_eq!(
        shamir.recover_secret(&[(1, big(54)), (2, big(80)), (1, big(54))]),
        Err(ShamirError::DuplicatePoints)
    );
    assert_eq!(
        shamir.recover_secret(&[(3, big(1)), (3, big(2))]),
        Err(ShamirError::DuplicatePoints)
    );
}

#[test]
fn indices_that_coincide_modulo_the_modulus_cannot_be_interpolated() {
    let shamir = ShamirSecret::new(big(3));
    assert_eq!(
        shamir.recover_secret(&[(1, big(2)), (4, big(2))]),
        Err(ShamirError::NonInvertible)
    );
}

#[test]
fn composite_modulus_can_fail_to_invert() {
    let shamir = ShamirSecret::new(big(6));
    assert_eq!(
        shamir.recover_secret(&[(1, big(2)), (3, big(4))]),
        Err(ShamirError::NonInvertible)
    );
}

#[test]
fn share_values_at_or_above_the_modulus_are_reduced() {
    let shamir = ShamirSecret::new(big(8191));
    let shares = vec![(1, big(54 + 8191)), (2, big(80)), (3, big(120 + 2 * 8191))];
    assert_eq!(shamir.recover_secret(&shares), Ok(big(42)));
}

#[test]
fn a_secret_at_or_above_the_modulus_is_shared_as_its_remainder() {
    let shamir = ShamirSecret::new(big(8191));
    let (secret, pool) = shamir.make_random_shamir_pool(big(8191 + 42), 2, 3).unwrap();
    assert_eq!(secret, big(8191 + 42));
    assert_eq!(shamir.recover_secret(&pool[..2]), Ok(big(42)));
}

#[test]
fn all_distinct_finds_equal_numbers() {
    assert!(all_distinct(&vec![big(1), big(2), big(3)]));
    assert!(!all_distinct(&vec![big(1), big(2), big(1)]));
    assert!(all_distinct(&vec![]));
    assert!(all_distinct(&vec![big(7)]));
}

#[test]
fn large_field_from_the_catalog() {
    let prime = MersennePrimes::new().get_mersenne_prime(13);
    let shamir = ShamirSecret::new(prime.clone());
    let key = (BigUint::from(1u32) << 500u32) + big(123456789);
    let (secret, pool) = shamir.make_random_shamir_pool(key.clone(), 3, 5).unwrap();
    assert_eq!(secret, key);
    for share in pool.iter() {
        assert!(share.1 < prime);
    }
    assert_eq!(shamir.recover_secret(&pool[..3]), Ok(key.clone()));
    assert_eq!(shamir.recover_secret(&pool[2..]), Ok(key.clone()));
    // Two shares of a quadratic do not determine it.
    assert!(shamir.recover_secret(&pool[..2]).unwrap() < prime);
}

#[test]
fn random_coefficients_differ_between_splits() {
    let prime = MersennePrimes::new().get_mersenne_prime(13);
    let shamir = ShamirSecret::new(prime);
    let (_, first) = shamir.make_random_shamir_pool(big(1), 3, 3).unwrap();
    let (_, second) = shamir.make_random_shamir_pool(big(1), 3, 3).unwrap();
    assert_ne!(first, second);
}
