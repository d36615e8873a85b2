//! Keyed hashing of text, as the sharded and the bit-filter engines use it.

use std::hash::{BuildHasher, Hash, Hasher};
use vstd::prelude::*;

verus! {

/// `ahash::RandomState`: the keys of a hash function, carried as they are.
#[verifier::external_type_specification]
#[verifier::external_body]
pub struct ExRandomState(ahash::RandomState);

/// The hash that a hasher built from `state` gives to `text`.
pub uninterp spec fn text_hash(state: ahash::RandomState, text: Seq<char>) -> u64;

/// The hash that a hasher built from `state` gives to `salt` followed by
/// `text`.
pub uninterp spec fn salted_text_hash(state: ahash::RandomState, salt: usize, text: Seq<char>) -> u64;

/// Calls `ahash::RandomState::new`, which draws fresh keys for every
/// instance. Nothing is claimed of the keys.
#[verifier::external_body]
pub(crate) fn fresh_hash_state() -> ahash::RandomState {
    ahash::RandomState::new()
}

/// Builds a hasher with `RandomState::build_hasher`, feeds it `text` and
/// finishes it. Hashers built from one state hash equal input to equal
/// output, so the result is the same for every call with the same state and
/// text; nothing else is claimed.
#[verifier::external_body]
pub(crate) fn hash_text(state: &ahash::RandomState, text: &str) -> (h: u64)
    ensures
        h == text_hash(*state, text@),
{
    let mut hasher = state.build_hasher();
    text.hash(&mut hasher);
    hasher.finish()
}

/// As `hash_text`, but the hasher is first fed `salt` with
/// `Hasher::write_usize`. The result is the same for every call with the same
/// state, salt and text; nothing else is claimed.
#[verifier::external_body]
pub(crate) fn hash_text_salted(state: &ahash::RandomState, salt: usize, text: &str) -> (h: u64)
    ensures
        h == salted_text_hash(*state, salt, text@),
{
    let mut hasher = state.build_hasher();
    hasher.write_usize(salt);
    text.hash(&mut hasher);
    hasher.finish()
}

} // verus!
