//! Threshold secret sharing over a prime field.
//!
//! A secret, a number below a prime modulus, becomes the constant term of a
//! random polynomial; the shares are the values of that polynomial at 1, 2,
//! 3 and so on. As many shares as the polynomial has coefficients determine
//! it, and so the secret; fewer fit every secret alike.
//!
//! - [`mersenne_primes`]: the catalog of moduli.
//! - [`multi_base_encoder`]: numbers as printable text, and back.
//! - [`shamir_secret`]: the field arithmetic, splitting and reconstruction,
//!   with the laws that relate the two.
//! - [`share_text`]: the text of one share.
//! - [`reconstruction`]: collecting the texts of shares until a secret can
//!   be reconstructed.
//! - [`error`]: the failures that are reported.
//! - [`modular`], [`polynomial`], [`interpolation`]: the mathematics that
//!   the contracts are stated in, with its lemmas.
//! - [`bignum`], [`random`]: the big integers of `num-bigint` and the
//!   generator of `rand`, whose behaviour is taken on trust.

pub mod bignum;
pub mod error;
pub mod interpolation;
pub mod mersenne_primes;
pub mod modular;
pub mod multi_base_encoder;
pub mod polynomial;
pub mod random;
pub mod reconstruction;
pub mod shamir_secret;
pub mod share_text;
