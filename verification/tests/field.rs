use num_bigint::BigUint;
use shamir::error::ShamirError;
use shamir::shamir_secret::ShamirSecret;

fn element(n: u64) -> BigUint {
    BigUint::from(n)
}

fn field(p: u64) -> ShamirSecret {
    ShamirSecret::new(element(p))
}

#[test]
fn try_new_refuses_zero_and_one() {
    assert!(ShamirSecret::try_new(element(0)).is_none());
    assert!(ShamirSecret::try_new(element(1)).is_none());
    assert!(ShamirSecret::try_new(element(2)).is_some());
    assert!(ShamirSecret::try_new(element(8191)).is_some());
}

#[test]
fn reduce_takes_the_remainder() {
    let f = field(7);
    assert_eq!(f.reduce(&element(23)), element(2));
    assert_eq!(f.reduce(&element(7)), element(0));
    assert_eq!(f.reduce(&element(6)), element(6));
}

#[test]
fn add_wraps_at_the_modulus() {
    let f = field(7);
    assert_eq!(f.add_mod(&element(3), &element(2)), element(5));
    assert_eq!(f.add_mod(&element(5), &element(4)), element(2));
    assert_eq!(f.add_mod(&element(6), &element(1)), element(0));
}

#[test]
fn sub_wraps_through_the_modulus() {
    let f = field(7);
    assert_eq!(f.sub_mod(&element(5), &element(2)), element(3));
    assert_eq!(f.sub_mod(&element(2), &element(5)), element(4));
    assert_eq!(f.sub_mod(&element(0), &element(1)), element(6));
    assert_eq!(f.sub_mod(&element(3), &element(3)), element(0));
    assert_eq!(f.sub_mod(&element(0), &element(7)), element(0));
    assert_eq!(f.sub_mod(&element(1), &element(16)), element(6));
}

#[test]
fn mul_reduces_the_product() {
    let f = field(7);
    assert_eq!(f.mul_mod(&element(3), &element(4)), element(5));
    assert_eq!(f.mul_mod(&element(6), &element(6)), element(1));
    assert_eq!(f.mul_mod(&element(0), &element(5)), element(0));
}

#[test]
fn inverse_of_three_modulo_seven_is_five() {
    assert_eq!(field(7).inverse(&element(3)), Ok(element(5)));
}

#[test]
fn inverse_times_element_is_one() {
    let f = field(8191);
    for a in 1u64..200 {
        let inv = f.inverse(&element(a)).unwrap();
        assert!(inv < element(8191));
        assert_eq!(f.mul_mod(&element(a), &inv), element(1));
    }
}

#[test]
fn inverse_of_an_unreduced_element() {
    // 10 is 3 modulo 7.
    assert_eq!(field(7).inverse(&element(10)), Ok(element(5)));
}

#[test]
fn zero_has_no_inverse() {
    assert_eq!(field(7).inverse(&element(0)), Err(ShamirError::NonInvertible));
}

#[test]
fn no_inverse_under_a_composite_modulus() {
    let f = field(6);
    assert_eq!(f.inverse(&element(4)), Err(ShamirError::NonInvertible));
    assert_eq!(f.inverse(&element(3)), Err(ShamirError::NonInvertible));
    assert_eq!(f.inverse(&element(5)), Ok(element(5)));
}

#[test]
fn extended_euclid_gives_the_divisor_and_a_coefficient() {
    let f = field(6);
    let (g, x) = f.extended_euclidean_gcd(&element(4));
    assert_eq!(g, element(2));
    assert_eq!(f.mul_mod(&element(4), &x), element(2));
    let f = field(8191);
    let (g, x) = f.extended_euclidean_gcd(&element(1234));
    assert_eq!(g, element(1));
    assert_eq!(f.mul_mod(&element(1234), &x), element(1));
}

#[test]
fn division_multiplies_by_the_inverse() {
    let f = field(7);
    // 4 / 3 = 4 * 5 = 20 = 6 modulo 7
    assert_eq!(f.division_modulo_prime(&element(4), &element(3)), Ok(element(6)));
    assert_eq!(
        f.division_modulo_prime(&element(4), &element(0)),
        Err(ShamirError::NonInvertible)
    );
}

#[test]
fn horner_evaluation() {
    let f = field(8191);
    let poly = vec![element(42), element(5), element(7)];
    assert_eq!(f.eval_coefficient_tuple_at_x(&poly, &element(0)), element(42));
    assert_eq!(f.eval_coefficient_tuple_at_x(&poly, &element(1)), element(54));
    assert_eq!(f.eval_coefficient_tuple_at_x(&poly, &element(2)), element(80));
    assert_eq!(f.eval_coefficient_tuple_at_x(&poly, &element(3)), element(120));
    // 42 + 5 * 100 + 7 * 10000 = 70542 = 8 * 8191 + 5014
    assert_eq!(f.eval_coefficient_tuple_at_x(&poly, &element(100)), element(5014));
    assert_eq!(f.eval_coefficient_tuple_at_x(&Vec::new(), &element(3)), element(0));
}

#[test]
fn coefficient_from_bytes_reads_big_endian() {
    let f = field(8191);
    // 0x0102 = 258
    assert_eq!(f.coefficient_from_bytes(&vec![1, 2]), element(258));
    // 0xffff = 65535 = 8 * 8191 + 7
    assert_eq!(f.coefficient_from_bytes(&vec![255, 255]), element(7));
    assert_eq!(f.coefficient_from_bytes(&Vec::new()), element(0));
}

#[test]
fn error_messages() {
    assert_eq!(
        ShamirError::InvalidParameters.message(),
        "can't have a threshold higher than the shares"
    );
    assert_eq!(
        ShamirError::InsufficientShares.message(),
        "cannot use less than two shares"
    );
    assert_eq!(
        ShamirError::DuplicatePoints.message(),
        "points for the lagrange interpolation are not distinct"
    );
}

#[test]
fn prime_is_the_modulus_given() {
    assert_eq!(field(8191).prime(), &element(8191));
}

#[test]
fn bezout_coefficient_as_a_field_element() {
    // gcd(12, 18) = 6 = 12 * (-1) + 18 * 1, and -1 is 17 modulo 18.
    let (g, x) = field(18).extended_euclidean_gcd(&element(12));
    assert_eq!(g, element(6));
    assert_eq!(x, element(17));
    // gcd(0, 7) = 7 = 0 * 0 + 7 * 1.
    let (g, x) = field(7).extended_euclidean_gcd(&element(0));
    assert_eq!(g, element(7));
    assert_eq!(x, element(0));
}
