//! Random lookups.

use crate::random::shuffle;
use rand_pcg::Mcg128Xsl64;
use vstd::prelude::*;

verus! {

/// A random lookup between the items of `collection`: the item at each place
/// of `collection` is looked up to the item at the same place of the result,
/// which holds the items of `collection` in an order drawn from `rng`.
pub fn random_lookup(collection: &Vec<char>, rng: &mut Mcg128Xsl64) -> (shuffled: Vec<char>)
    ensures
        shuffled@.to_multiset() == collection@.to_multiset(),
{
    let mut shuffled = collection.clone();
    assert(shuffled@ =~= collection@);
    shuffle(&mut shuffled, rng);
    shuffled
}

} // verus!
