use vstd::prelude::*;
use rand::seq::SliceRandom;

verus! {

/// Puts the items in a random order, with `rand`'s `SliceRandom::shuffle`
/// driven by the generator of `rand::thread_rng`.  The shuffle exchanges
/// items in place (Fisher-Yates), so what comes out holds the same items as
/// what went in; which order comes out rests on chance and is left open.
/// `thread_rng` panics when the operating system cannot seed it, which no
/// argument decides.
#[verifier::external_body]
pub(crate) fn shuffle<T>(items: &mut Vec<T>)
    ensures
        final(items)@.len() == old(items)@.len(),
        final(items)@.to_multiset() == old(items)@.to_multiset(),
{
    let mut rng = rand::thread_rng();
    items.shuffle(&mut rng);
}

} // verus!
