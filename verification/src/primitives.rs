//! Hashing, checksum and seeded shuffling provided by outside crates. Each
//! function here is trusted: its contract names what the outside code
//! computes and states only what that code's documentation and source show.

use rand::seq::SliceRandom;
use rand::SeedableRng;
use rand_chacha::ChaCha20Rng;
use sha2::{Digest, Sha256};
use vstd::prelude::*;

verus! {

/// The CRC-32 (IEEE) checksum of a byte string, as crc32fast computes it.
pub uninterp spec fn crc32(data: Seq<u8>) -> u32;

/// The SHA-256 digest of a byte string, as sha2 computes it.
pub uninterp spec fn sha256(data: Seq<u8>) -> Seq<u8>;

/// The order in which `SliceRandom::shuffle` leaves items when driven by a
/// ChaCha20 generator seeded with the given 32 bytes.
pub uninterp spec fn chacha_shuffle(seed: Seq<u8>, items: Seq<(u32, u32)>) -> Seq<(u32, u32)>;

/// `crc32fast::hash`: claimed to return the CRC-32 of exactly the bytes given,
/// the same value for the same bytes.
#[verifier::external_body]
pub(crate) fn crc32_of(data: &[u8]) -> (c: u32)
    ensures
        c == crc32(data@),
{
    crc32fast::hash(data)
}

/// `Sha256::digest`: claimed to return the SHA-256 digest of exactly the bytes
/// given, which is 32 bytes long.
#[verifier::external_body]
pub(crate) fn sha256_digest(data: &[u8]) -> (d: Vec<u8>)
    ensures
        d@ == sha256(data@),
        d.len() == 32,
{
    Sha256::digest(data).to_vec()
}

/// `SliceRandom::shuffle` with a `ChaCha20Rng` built by `from_seed`: claimed
/// to leave a permutation of the items (the source performs only swaps) that
/// is determined by the seed and the items.
#[verifier::external_body]
pub(crate) fn shuffle_with_seed(items: &mut Vec<(u32, u32)>, seed: &[u8])
    requires
        seed.len() == 32,
    ensures
        final(items)@ == chacha_shuffle(seed@, old(items)@),
        final(items)@.to_multiset() == old(items)@.to_multiset(),
{
    let mut key = [0u8; 32];
    key.copy_from_slice(seed);
    let mut rng = ChaCha20Rng::from_seed(key);
    items.shuffle(&mut rng);
}

} // verus!
