//! Hashing of file and segment names.
use vstd::prelude::*;

verus! {

/// A name for the value that `std`'s `DefaultHasher` computes for a string
/// slice. Every `DefaultHasher::new()` starts from the same state, so within
/// one build of the program the value depends on the string alone.
pub uninterp spec fn str_hash(s: Seq<char>) -> u64;

/// Calls `BuildHasher::hash_one` on `BuildHasherDefault<DefaultHasher>`, which
/// gives the same value as hashing `s` into `DefaultHasher::new()` and calling
/// `finish`. Claimed: the result is `str_hash(s@)`; the hash function itself
/// is not stated.
#[verifier::external_body]
fn default_hash(s: &str) -> (h: u64)
    ensures
        h == str_hash(s@),
{
    std::hash::BuildHasher::hash_one(&std::hash::BuildHasherDefault::<std::collections::hash_map::DefaultHasher>::default(), s)
}

/// The hash of a file name, by which the cache and the shared memory
/// segments are keyed.
pub fn get_hash(file_name: &str) -> (h: u64)
    ensures
        h == str_hash(file_name@),
{
    default_hash(file_name)
}

} // verus!
