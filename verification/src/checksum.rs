//! The 32-bit checksums: the one that guards an envelope, which callers
//! choose, and the standard CRC-32 that guards an archive entry.

use vstd::prelude::*;

verus! {

/// A 32-bit checksum over bytes. The envelope's own checksum is not the
/// standard one and is not fixed here: whoever knows it supplies it as an
/// implementation of this trait, and the framing is verified for every
/// implementation.
pub trait Checksum {
    /// The checksum of `bytes`: a function of the checksum's own settings
    /// and of the bytes, and of nothing else. An implementation states
    /// which function it is; one that does not leaves it unknown.
    open spec fn digest(&self, bytes: Seq<u8>) -> u32 {
        (arbitrary::<spec_fn(&Self, Seq<u8>) -> u32>())(self, bytes)
    }

    /// Computes the checksum of `bytes`.
    fn checksum(&self, bytes: &[u8]) -> (sum: u32)
        ensures
            sum == self.digest(bytes@),
    ;
}

/// The CRC-32 (IEEE) of `bytes`, as `crc32fast` computes it.
pub uninterp spec fn crc32(bytes: Seq<u8>) -> u32;

/// `crc32fast::hash`: the CRC-32 (IEEE) checksum of the bytes. The contract
/// only gives the result its name; it says nothing of its value.
#[verifier::external_body]
fn crc32_of(bytes: &[u8]) -> (sum: u32)
    ensures
        sum == crc32(bytes@),
{
    crc32fast::hash(bytes)
}

/// The standard CRC-32, for the archive entry and for envelopes that use it.
#[derive(Debug, Clone, Copy, PartialEq, Eq)]
pub struct Crc32;

impl Checksum for Crc32 {
    open spec fn digest(&self, bytes: Seq<u8>) -> u32 {
        crc32(bytes)
    }

    fn checksum(&self, bytes: &[u8]) -> (sum: u32) {
        crc32_of(bytes)
    }
}

} // verus!
