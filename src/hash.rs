use std::collections::hash_map::DefaultHasher;
use std::hash::{Hash, Hasher};
use vstd::prelude::*;
use vstd::std_specs::hash::DefaultHasherAdditionalSpecFns;

verus! {

/// What `<str as Hash>::hash` writes into a hasher that has already been fed
/// `history`: the hasher's input afterwards, a function of `history` and the
/// string's characters alone.
pub uninterp spec fn str_hash_input(history: Seq<Seq<u8>>, s: Seq<char>) -> Seq<Seq<u8>>;

/// The 64-bit hash of a key: a fresh `DefaultHasher`, fed the key, finished.
pub open spec fn str_hash(s: Seq<char>) -> u64 {
    DefaultHasher::spec_finish(str_hash_input(Seq::empty(), s))
}

/// Relies on `<str as Hash>::hash`, to feed a key's bytes to the hasher.
#[verifier::external_body]
fn feed_str(s: &str, state: &mut DefaultHasher)
    ensures
        final(state)@ == str_hash_input(old(state)@, s@),
{
    s.hash(state)
}

/// Hashes a key with a fresh `DefaultHasher`.
pub fn calculate_hash(s: &str) -> (r: u64)
    ensures
        r == str_hash(s@),
{
    let mut state = DefaultHasher::new();
    feed_str(s, &mut state);
    state.finish()
}

} // verus!
