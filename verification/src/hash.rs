//! The path digest used to key the files index.

use vstd::prelude::*;

verus! {

/// The 64-bit digest that `xxhash_rust::xxh3::xxh3_64` computes over a
/// text's UTF-8 bytes: a fixed function of the characters alone.
pub uninterp spec fn xxh3_of(s: Seq<char>) -> u64;

/// Relies on `xxhash_rust::xxh3::xxh3_64`: a seedless digest of the
/// input bytes, deterministic across runs and machines.
#[verifier::external_body]
pub(crate) fn xxh3_hash(s: &str) -> (r: u64)
    ensures
        r == xxh3_of(s@),
{
    xxhash_rust::xxh3::xxh3_64(s.as_bytes())
}

} // verus!
