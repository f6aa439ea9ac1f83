//! The random source of a key, and the two draws that a key makes from it.
//!
//! The generator is opaque to the verifier. What is stated of a draw holds of
//! every outcome; which outcome a given seed yields is not stated.

use rand::seq::SliceRandom;
use rand_pcg::Mcg128Xsl64;
use vstd::prelude::*;

verus! {

/// The generator `rand_pcg::Mcg128Xsl64`, carried through as an opaque value.
#[verifier::external_type_specification]
#[verifier::external_body]
pub struct ExMcg128Xsl64(rand_pcg::Mcg128Xsl64);

/// `SliceRandom::shuffle` on a slice of symbols. It only swaps elements of
/// the slice, so what comes out holds each symbol as often as what went in.
#[verifier::external_body]
pub(crate) fn shuffle(symbols: &mut Vec<char>, rng: &mut Mcg128Xsl64)
    ensures
        final(symbols)@.to_multiset() == old(symbols)@.to_multiset(),
{
    symbols.shuffle(rng);
}

/// `SliceRandom::choose` on a slice of symbols: `None` for an empty slice,
/// else one of its elements.
#[verifier::external_body]
pub(crate) fn draw_symbol(symbols: &Vec<char>, rng: &mut Mcg128Xsl64) -> (symbol: Option<char>)
    ensures
        match symbol {
            Some(c) => symbols@.contains(c),
            None => symbols@.len() == 0,
        },
{
    symbols.choose(rng).copied()
}

/// `Clone::clone` of the generator. Nothing is stated of the copy.
#[verifier::external_body]
pub(crate) fn clone_generator(rng: &Mcg128Xsl64) -> (copy: Mcg128Xsl64) {
    rng.clone()
}

} // verus!
