//! Collecting the texts of shares, one at a time, until there are enough to
//! reconstruct a secret from.
//!
//! The collector decides; its caller asks for the texts. While the
//! collector is not complete the caller asks for the share that `position`
//! numbers and offers the answer, which the collector keeps or refuses with
//! a reason.

use crate::bignum::big_value;
use crate::error::ShamirError;
use crate::multi_base_encoder::{encoding, MultiBaseEncoder};
use crate::shamir_secret::{recovery, share_indices, share_values, ShamirSecret};
use crate::share_text::{parsed_share, ShareFormat, SECRET_RADIX};
use num_bigint::BigUint;
use vstd::prelude::*;

verus! {

/// The text, in radix 93, of the secret that the shares stand for modulo
/// `p`, or why they do not stand for one.
pub open spec fn reconstructed_text(p: nat, shares: Seq<(usize, BigUint)>) -> Result<
    Seq<char>,
    ShamirError,
> {
    match recovery(p, share_indices(shares), share_values(shares)) {
        Ok(secret) => Ok(encoding(SECRET_RADIX as nat, secret)),
        Err(e) => Err(e),
    }
}

/// The shares collected for one reconstruction, and how many are wanted.
pub struct ShareCollector {
    wanted: usize,
    shares: Vec<(usize, BigUint)>,
    format: ShareFormat,
}

impl ShareCollector {
    /// The number of shares that the collector waits for.
    pub closed spec fn wanted(&self) -> nat {
        self.wanted as nat
    }

    /// The shares collected so far, in the order in which they came.
    pub closed spec fn collected(&self) -> Seq<(usize, BigUint)> {
        self.shares@
    }

    /// A collector that waits for `minimum` shares and has none.
    pub fn new(minimum: usize) -> (r: Self)
        ensures
            r.wanted() == minimum,
            r.collected().len() == 0,
    {
        ShareCollector {
            wanted: minimum,
            shares: Vec::new(),
            format: ShareFormat::new(),
        }
    }

    /// Whether as many shares as wanted have been collected.
    pub fn is_complete(&self) -> (r: bool)
        ensures
            r == (self.collected().len() >= self.wanted()),
    {
        self.shares.len() >= self.wanted
    }

    /// The number, counting from 1, of the share to ask for next.
    pub fn position(&self) -> (r: usize)
        requires
            self.collected().len() < self.wanted(),
        ensures
            r == self.collected().len() + 1,
    {
        self.shares.len() + 1
    }

    /// The shares collected so far.
    pub fn shares(&self) -> (r: &Vec<(usize, BigUint)>)
        ensures
            r@ == self.collected(),
    {
        &self.shares
    }

    /// Takes the text of one share. A text that says a share is kept, after
    /// the shares collected before; any other is refused with the reason,
    /// and nothing changes.
    pub fn offer(&mut self, line: &str) -> (r: Result<(), ShamirError>)
        ensures
            final(self).wanted() == old(self).wanted(),
            r is Ok <==> parsed_share(line@) is Ok,
            r is Ok ==> share_indices(final(self).collected()) == share_indices(
                old(self).collected(),
            ).push(parsed_share(line@)->Ok_0.0 as int),
            r is Ok ==> share_values(final(self).collected()) == share_values(
                old(self).collected(),
            ).push(parsed_share(line@)->Ok_0.1 as int),
            r matches Err(e) ==> parsed_share(line@) == Err::<(nat, nat), ShamirError>(e),
            r is Err ==> final(self).collected() == old(self).collected(),
    {
        match self.format.parse(line) {
            Ok(share) => {
                let ghost before = self.shares@;
                let ghost index = share.0 as int;
                let ghost value = big_value(share.1) as int;
                self.shares.push(share);
                proof {
                    assert(share_indices(self.shares@) =~= share_indices(before).push(index));
                    assert(share_values(self.shares@) =~= share_values(before).push(value));
                }
                Ok(())
            },
            Err(e) => Err(e),
        }
    }

    /// The secret that the collected shares stand for under `shamir`, as
    /// text in radix 93.
    pub fn reconstruct(&self, shamir: &ShamirSecret) -> (r: Result<String, ShamirError>)
        ensures
            r matches Ok(text) ==> reconstructed_text(shamir.modulus(), self.collected()) == Ok::<
                Seq<char>,
                ShamirError,
            >(text@),
            r matches Err(e) ==> reconstructed_text(shamir.modulus(), self.collected()) == Err::<
                Seq<char>,
                ShamirError,
            >(e),
    {
        match shamir.recover_secret(self.shares.as_slice()) {
            Ok(secret) => Ok(MultiBaseEncoder::new(SECRET_RADIX).encode(secret)),
            Err(e) => Err(e),
        }
    }
}

} // verus!
