//! The arbitrary-precision integers that the library computes with.
//!
//! The integers are `num_bigint::BigUint` values. Verus cannot look inside
//! them, so every operation the library needs is declared here, once, with
//! the contract that the rest of the crate relies on. Nothing in this file is
//! proved: each contract restates, over the mathematical value of the
//! operands, what `num-bigint` documents for the operation.

use num_bigint::BigUint;
use vstd::arithmetic::power2::pow2;
use vstd::prelude::*;

verus! {

/// `num_bigint::BigUint`, an unsigned integer of any size, declared so that
/// values of it can be held and passed on. Nothing is known of a value but
/// what the functions below say of its `big_value`.
#[verifier::external_type_specification]
#[verifier::external_body]
pub struct ExBigUint(num_bigint::BigUint);

/// The natural number that a `BigUint` holds.
pub uninterp spec fn big_value(n: BigUint) -> nat;

/// The numbers held by a sequence of big integers, in order.
pub open spec fn big_values(s: Seq<BigUint>) -> Seq<int> {
    Seq::new(s.len(), |i: int| big_value(s[i]) as int)
}

/// The number written by `bytes` in base 256, most significant byte first.
pub open spec fn be_bytes_value(bytes: Seq<u8>) -> nat
    decreases bytes.len(),
{
    if bytes.len() == 0 {
        0
    } else {
        be_bytes_value(bytes.drop_last()) * 256 + bytes.last() as nat
    }
}

/// The number written by `digits` in base 2^32, least significant digit
/// first.
pub open spec fn le_u32_value(digits: Seq<u32>) -> nat
    decreases digits.len(),
{
    if digits.len() == 0 {
        0
    } else {
        digits[0] as nat + 0x1_0000_0000 * le_u32_value(digits.drop_first())
    }
}

/// `<BigUint as num_traits::Zero>::zero`: the big integer 0.
#[verifier::external_body]
pub(crate) fn big_zero() -> (r: BigUint)
    ensures
        big_value(r) == 0,
{
    <BigUint as num_traits::Zero>::zero()
}

/// `<BigUint as num_traits::One>::one`: the big integer 1.
#[verifier::external_body]
pub(crate) fn big_one() -> (r: BigUint)
    ensures
        big_value(r) == 1,
{
    <BigUint as num_traits::One>::one()
}

/// `<BigUint as num_traits::Zero>::is_zero`: whether the value is 0.
#[verifier::external_body]
pub(crate) fn big_is_zero(a: &BigUint) -> (r: bool)
    ensures
        r == (big_value(*a) == 0),
{
    num_traits::Zero::is_zero(a)
}

/// `BigUint::from(usize)`: the big integer with the value of `n`.
#[verifier::external_body]
pub(crate) fn big_from_usize(n: usize) -> (r: BigUint)
    ensures
        big_value(r) == n,
{
    BigUint::from(n)
}

/// `<BigUint as Clone>::clone`: a copy with the same value.
#[verifier::external_body]
pub(crate) fn big_clone(a: &BigUint) -> (r: BigUint)
    ensures
        big_value(r) == big_value(*a),
{
    a.clone()
}

/// `&a + &b`: the sum. Big integers do not overflow.
#[verifier::external_body]
pub(crate) fn big_add(a: &BigUint, b: &BigUint) -> (r: BigUint)
    ensures
        big_value(r) == big_value(*a) + big_value(*b),
{
    a + b
}

/// `&a - &b`: the difference. `num-bigint` panics when `b` exceeds `a`, so
/// that case is excluded.
#[verifier::external_body]
pub(crate) fn big_sub(a: &BigUint, b: &BigUint) -> (r: BigUint)
    requires
        big_value(*a) >= big_value(*b),
    ensures
        big_value(r) == big_value(*a) - big_value(*b),
{
    a - b
}

/// `&a * &b`: the product.
#[verifier::external_body]
pub(crate) fn big_mul(a: &BigUint, b: &BigUint) -> (r: BigUint)
    ensures
        big_value(r) == big_value(*a) * big_value(*b),
{
    a * b
}

/// `&a / &b`: the quotient, rounded down. `num-bigint` panics on a zero
/// divisor, so that case is excluded.
#[verifier::external_body]
pub(crate) fn big_div(a: &BigUint, b: &BigUint) -> (r: BigUint)
    requires
        big_value(*b) != 0,
    ensures
        big_value(r) == big_value(*a) / big_value(*b),
{
    a / b
}

/// `&a % &b`: the remainder. `num-bigint` panics on a zero divisor, so that
/// case is excluded.
#[verifier::external_body]
pub(crate) fn big_rem(a: &BigUint, b: &BigUint) -> (r: BigUint)
    requires
        big_value(*b) != 0,
    ensures
        big_value(r) == big_value(*a) % big_value(*b),
{
    a % b
}

/// `a << bits` with a `u32` shift: the value multiplied by 2^bits.
#[verifier::external_body]
pub(crate) fn big_shl(a: BigUint, bits: u32) -> (r: BigUint)
    ensures
        big_value(r) == big_value(a) * pow2(bits as nat),
{
    a << bits
}

/// `a >= b` on `BigUint`: the comparison of the two values.
#[verifier::external_body]
pub(crate) fn big_ge(a: &BigUint, b: &BigUint) -> (r: bool)
    ensures
        r == (big_value(*a) >= big_value(*b)),
{
    a >= b
}

/// `BigUint::from_bytes_be`: the value written by the bytes in base 256,
/// most significant byte first; no bytes give 0.
#[verifier::external_body]
pub(crate) fn big_from_bytes_be(bytes: &[u8]) -> (r: BigUint)
    ensures
        big_value(r) == be_bytes_value(bytes@),
{
    BigUint::from_bytes_be(bytes)
}

/// `BigUint::bits`: the fewest bits that can express the value, which is 0
/// for the value 0.
#[verifier::external_body]
pub(crate) fn big_bits(a: &BigUint) -> (r: u64)
    ensures
        big_value(*a) < pow2(r as nat),
        r > 0 ==> pow2((r - 1) as nat) <= big_value(*a),
{
    a.bits()
}

/// `BigUint::to_u32_digits`: the base-2^32 digits of the value, least
/// significant first, with no zero digit at the top; the value 0 has no
/// digits.
#[verifier::external_body]
pub(crate) fn big_to_u32_digits(a: &BigUint) -> (r: Vec<u32>)
    ensures
        le_u32_value(r@) == big_value(*a),
        r@.len() > 0 ==> r@.last() != 0,
{
    a.to_u32_digits()
}

/// A value written with at least two base-2^32 digits, the top one not
/// zero, is at least 2^32.
pub proof fn lemma_le_u32_value_two_digits(digits: Seq<u32>)
    requires
        digits.len() >= 2,
        digits.last() != 0,
    ensures
        le_u32_value(digits) >= 0x1_0000_0000,
    decreases digits.len(),
{
    let rest = digits.drop_first();
    assert(rest.last() == digits.last());
    if rest.len() >= 2 {
        lemma_le_u32_value_two_digits(rest);
    } else {
        assert(rest.drop_first().len() == 0);
        assert(le_u32_value(rest) == rest[0] as nat + 0x1_0000_0000 * le_u32_value(
            rest.drop_first(),
        ));
        assert(le_u32_value(rest) >= 1);
    }
    assert(le_u32_value(digits) == digits[0] as nat + 0x1_0000_0000 * le_u32_value(rest));
}

/// The value of a big integer below 2^32, as a machine integer: its only
/// base-2^32 digit, or 0 when it has none.
pub(crate) fn big_to_small(a: &BigUint) -> (r: u32)
    requires
        big_value(*a) < 0x1_0000_0000,
    ensures
        r == big_value(*a),
{
    let digits = big_to_u32_digits(a);
    if digits.len() == 0 {
        0
    } else {
        proof {
            if digits@.len() >= 2 {
                lemma_le_u32_value_two_digits(digits@);
            }
            assert(digits@.drop_first().len() == 0);
            assert(le_u32_value(digits@) == digits@[0] as nat + 0x1_0000_0000 * le_u32_value(
                digits@.drop_first(),
            ));
        }
        digits[0]
    }
}

} // verus!
