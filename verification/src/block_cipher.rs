//! The block-cipher capability: the single operation the MAC construction
//! needs from a concrete keyed permutation (AES-128, AES-256, or a test
//! stub).

use vstd::prelude::*;
use crate::block::Block;

verus! {

/// A keyed 128-bit block cipher, reduced to the one capability this core
/// consumes: encrypt one block in place.
///
/// The operation must be a pure function of the input block (same key,
/// same input, same output); implementers are additionally expected not to
/// vary timing with secret key bits, a requirement this core passes down
/// to the concrete permutation rather than re-verifying it.
pub trait BlockCipher {
    /// The ciphertext block this cipher produces for a given plaintext
    /// block: the mathematical description of the keyed permutation.
    spec fn block_spec(&self, input: Seq<u8>) -> Seq<u8>;

    /// Encrypt the block in place.
    fn encrypt(&self, block: &mut Block)
        ensures
            final(block)@ == self.block_spec(old(block)@),
    ;
}

} // verus!
