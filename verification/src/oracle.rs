//! The hash oracle: one BLAKE3 hash of the input, followed by a fixed number of
//! re-hashes of the digest itself.

use vstd::prelude::*;

verus! {

/// Width in bytes of every digest the oracle produces.
pub const DIGEST_WIDTH: usize = 32;

/// The BLAKE3 hash of `input`, as a sequence of bytes.
///
/// BLAKE3 is not modelled here; this only gives its output a name, so that
/// contracts can say which bytes were hashed and how often.
pub uninterp spec fn blake3_digest(input: Seq<u8>) -> Seq<u8>;

/// The digest of `input` after the first hash and `rounds` re-hashes.
pub open spec fn stretched(input: Seq<u8>, rounds: nat) -> Seq<u8>
    decreases rounds,
{
    if rounds == 0 {
        blake3_digest(input)
    } else {
        blake3_digest(stretched(input, (rounds - 1) as nat))
    }
}

/// Calls `blake3::hash` and copies the 32 bytes out of the `Hash` it returns.
///
/// Trusted: the bytes are the BLAKE3 hash of `input`, the same for the same
/// input on every call. `blake3::hash` accepts input of any length.
#[verifier::external_body]
fn blake3_hash(input: &[u8]) -> (digest: [u8; DIGEST_WIDTH])
    ensures
        digest@ == blake3_digest(input@),
{
    *blake3::hash(input).as_bytes()
}

/// Hashes `input` once and then re-hashes the digest `rounds` times.
pub fn stretch(input: &[u8], rounds: u32) -> (digest: [u8; DIGEST_WIDTH])
    ensures
        digest@ == stretched(input@, rounds as nat),
{
    let mut digest = blake3_hash(input);
    let mut done: u32 = 0;
    while done < rounds
        invariant
            done <= rounds,
            digest@ == stretched(input@, done as nat),
        decreases rounds - done,
    {
        digest = blake3_hash(digest.as_slice());
        done = done + 1;
    }
    digest
}

} // verus!
