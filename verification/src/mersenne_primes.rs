//! The catalog of Mersenne primes from which a field modulus is chosen.

use crate::bignum::{big_one, big_shl, big_sub, big_value};
use crate::modular::{is_prime, lemma_trial_division};
use num_bigint::BigUint;
use vstd::arithmetic::power2::*;
use vstd::prelude::*;

verus! {

/// The exponents `e`, in ascending order, for which the catalog offers
/// `2^e - 1`. The catalog takes their primality as given.
pub open spec fn mersenne_exponents() -> Seq<u32> {
    seq![
        2u32, 3u32, 5u32, 7u32, 13u32, 17u32, 19u32, 31u32, 61u32, 89u32, 107u32, 127u32, 521u32,
        607u32, 1279u32, 2203u32, 2281u32, 3217u32, 4253u32,
    ]
}

/// The number `2^e - 1` of the catalog's entry `level`.
pub open spec fn mersenne_number(level: int) -> nat
    recommends
        0 <= level < mersenne_exponents().len(),
{
    (pow2(mersenne_exponents()[level] as nat) - 1) as nat
}

/// Every exponent of the table is at least 2, so every number of the catalog
/// is at least 3.
pub proof fn lemma_exponents_at_least_two(level: int)
    requires
        0 <= level < mersenne_exponents().len(),
    ensures
        mersenne_exponents()[level] >= 2,
{
}

/// None of the seven smallest numbers of the catalog has a divisor from 2
/// up to the least number whose square reaches it.
proof fn lemma_no_small_divisor(d: u32)
    requires
        d >= 2,
    ensures
        d <= 2 ==> 3u32 % d != 0,
        d <= 3 ==> 7u32 % d != 0,
        d <= 6 ==> 31u32 % d != 0,
        d <= 12 ==> 127u32 % d != 0,
        d <= 91 ==> 8191u32 % d != 0,
        d <= 363 ==> 131071u32 % d != 0,
        d <= 725 ==> 524287u32 % d != 0,
{
    assert(2 <= d && d <= 2 ==> 3u32 % d != 0) by (bit_vector);
    assert(2 <= d && d <= 3 ==> 7u32 % d != 0) by (bit_vector);
    assert(2 <= d && d <= 6 ==> 31u32 % d != 0) by (bit_vector);
    assert(2 <= d && d <= 12 ==> 127u32 % d != 0) by (bit_vector);
    assert(2 <= d && d <= 91 ==> 8191u32 % d != 0) by (bit_vector);
    assert(2 <= d && d <= 363 ==> 131071u32 % d != 0) by (bit_vector);
    assert(2 <= d && d <= 725 ==> 524287u32 % d != 0) by (bit_vector);
}

/// The seven smallest numbers of the catalog are prime, by trial division.
/// For the larger ones the catalog relies on its table.
pub proof fn lemma_small_mersenne_numbers_are_prime()
    ensures
        mersenne_number(0) == 3 && is_prime(3),
        mersenne_number(1) == 7 && is_prime(7),
        mersenne_number(2) == 31 && is_prime(31),
        mersenne_number(3) == 127 && is_prime(127),
        mersenne_number(4) == 8191 && is_prime(8191),
        mersenne_number(5) == 131071 && is_prime(131071),
        mersenne_number(6) == 524287 && is_prime(524287),
{
    lemma2_to64();
    assert forall|d: nat| 2 <= d <= 2 implies #[trigger] (3nat % d) != 0 by {
        lemma_no_small_divisor(d as u32);
    }
    lemma_trial_division(3, 2);
    assert forall|d: nat| 2 <= d <= 3 implies #[trigger] (7nat % d) != 0 by {
        lemma_no_small_divisor(d as u32);
    }
    lemma_trial_division(7, 3);
    assert forall|d: nat| 2 <= d <= 6 implies #[trigger] (31nat % d) != 0 by {
        lemma_no_small_divisor(d as u32);
    }
    lemma_trial_division(31, 6);
    assert forall|d: nat| 2 <= d <= 12 implies #[trigger] (127nat % d) != 0 by {
        lemma_no_small_divisor(d as u32);
    }
    lemma_trial_division(127, 12);
    assert forall|d: nat| 2 <= d <= 91 implies #[trigger] (8191nat % d) != 0 by {
        lemma_no_small_divisor(d as u32);
    }
    lemma_trial_division(8191, 91);
    assert forall|d: nat| 2 <= d <= 363 implies #[trigger] (131071nat % d) != 0 by {
        lemma_no_small_divisor(d as u32);
    }
    lemma_trial_division(131071, 363);
    assert forall|d: nat| 2 <= d <= 725 implies #[trigger] (524287nat % d) != 0 by {
        lemma_no_small_divisor(d as u32);
    }
    lemma_trial_division(524287, 725);
}

/// A fixed table of exponents known to yield Mersenne primes.
pub struct MersennePrimes {
    exponents_of_two: Vec<u32>,
}

impl MersennePrimes {
    #[verifier::type_invariant]
    spec fn holds_the_table(&self) -> bool {
        self.exponents_of_two@ == mersenne_exponents()
    }

    /// The exponents that the catalog holds.
    pub closed spec fn exponents(&self) -> Seq<u32> {
        self.exponents_of_two@
    }

    /// The number of security levels that the catalog offers.
    pub open spec fn levels() -> nat {
        mersenne_exponents().len()
    }

    /// The catalog.
    pub fn new() -> (r: Self)
        ensures
            r.exponents() == mersenne_exponents(),
    {
        let exponents_of_two: Vec<u32> = vec![
            2, 3, 5, 7, 13, 17, 19, 31, 61, 89, 107, 127, 521, 607, 1279, 2203, 2281, 3217, 4253,
        ];
        assert(exponents_of_two@ =~= mersenne_exponents());
        MersennePrimes { exponents_of_two }
    }

    /// The Mersenne prime of security level `n`: `2^e - 1` for the
    /// exponent `e` at the place `n` of the table, counting from 0.
    pub fn get_mersenne_prime(&self, n: usize) -> (r: BigUint)
        requires
            n < Self::levels(),
        ensures
            big_value(r) == mersenne_number(n as int),
            big_value(r) >= 3,
    {
        proof {
            use_type_invariant(self);
        }
        let exponent: u32 = self.exponents_of_two[n];
        let one = big_one();
        let power = big_shl(big_one(), exponent);
        proof {
            lemma_exponents_at_least_two(n as int);
            lemma2_to64();
            if exponent > 2 {
                lemma_pow2_strictly_increases(2, exponent as nat);
            }
        }
        big_sub(&power, &one)
    }
}

} // verus!
