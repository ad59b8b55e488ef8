//! Hashing of arbitrary values with the hasher of the standard library.

use std::collections::hash_map::DefaultHasher;
use std::hash::Hash;
use std::hash::Hasher;

use vstd::prelude::*;
use vstd::std_specs::hash::DefaultHasherAdditionalSpecFns;

verus! {

/// Feeds a value to the default hasher: `Hash::hash` of the standard library,
/// as the type of the value implements it. What an implementation writes to the
/// hasher is up to it, so nothing is claimed of the hasher afterwards.
#[verifier::external_body]
fn feed<H: Hash + ?Sized>(item: &H, hasher: &mut DefaultHasher) {
    item.hash(hasher);
}

/// The hasher after it was fed a value: what `feed` made of the hasher, and of this
/// value and no other.
fn fed<H: Hash + ?Sized>(item: &H, hasher: DefaultHasher) -> (res: DefaultHasher)
    ensures
        exists|state: &mut DefaultHasher| #[trigger]
            call_ensures(feed::<H>, (item, state), ()) && *state == hasher && *final(state) == res,
{
    let mut res = hasher;
    feed(item, &mut res);
    res
}

/// Whether `hash` is what a new default hasher gave after it was fed `item`. An
/// implementation of `Hash` need not write the same each time, so this is a relation
/// and no function; but the hash of another value is not in it.
pub closed spec fn is_hash_of<H: Hash + ?Sized>(item: &H, hash: u64) -> bool {
    exists|start: DefaultHasher, end: DefaultHasher| #[trigger]
        call_ensures(fed::<H>, (item, start), end) && start@ == Seq::<Seq<u8>>::empty() && hash
            == DefaultHasher::spec_finish(end@)
}

/// The hash that the default hasher gives a value.
pub(crate) fn hash_item<H: Hash + ?Sized>(item: &H) -> (hash: u64)
    ensures
        is_default_hash(hash),
        is_hash_of(item, hash),
{
    let hasher = fed(item, DefaultHasher::new());
    let hash: u64 = hasher.finish();
    assert(hash == DefaultHasher::spec_finish(hasher@));
    hash
}

/// Whether the default hasher gives this hash for some sequence of writes.
pub open spec fn is_default_hash(hash: u64) -> bool {
    exists|writes: Seq<Seq<u8>>| hash == #[trigger] DefaultHasher::spec_finish(writes)
}

/// The hash of a value is one that the default hasher gives.
pub proof fn item_hashes_are_default_hashes<H: Hash + ?Sized>(item: &H, hash: u64)
    requires
        is_hash_of(item, hash),
    ensures
        is_default_hash(hash),
{
}

} // verus!
