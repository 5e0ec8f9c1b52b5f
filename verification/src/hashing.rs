//! Digest of an element, as the counters consume it.
use std::collections::hash_map::DefaultHasher;
use std::hash::{Hash, Hasher};
use vstd::prelude::*;
use vstd::std_specs::hash::DefaultHasherAdditionalSpecFns;

verus! {

/// Calls `Hash::hash` on `value` with `hasher`. What a type writes to the
/// hasher is its own business, so nothing is claimed of the hasher afterwards.
#[verifier::external_body]
fn feed<T: Hash>(value: &T, hasher: &mut DefaultHasher) {
    value.hash(hasher)
}

/// The 64-bit digest of `value`: what a fresh `DefaultHasher` reports after
/// the value was fed to it. Which bytes the value writes is not known here, so
/// the digest is that of some sequence of writes.
pub(crate) fn digest<T: Hash>(value: &T) -> (hash: u64)
    ensures
        exists|written: Seq<Seq<u8>>| hash == #[trigger] DefaultHasher::spec_finish(written),
{
    let mut hasher = DefaultHasher::new();
    feed(value, &mut hasher);
    let hash = hasher.finish();
    assert(hash == DefaultHasher::spec_finish(hasher@));
    hash
}

} // verus!
