//! Random choices, drawn from the thread-local generator of the `rand` crate.
//!
//! Nothing is known of a draw but the range it comes from, so two draws with
//! the same arguments may differ. The generator is seeded by the system when
//! a thread first uses it, and `rand` panics if the system cannot do that.

use rand::seq::SliceRandom;
use rand::Rng;
use vstd::prelude::*;

verus! {

/// A number drawn uniformly from `0..=max`, by `Rng::gen_range` on
/// `rand::thread_rng()`.
///
/// Trusted: the draw lies in the range it was asked for. The range is never
/// empty, which is the one case in which `gen_range` panics.
#[verifier::external_body]
pub(crate) fn random_up_to(max: u32) -> (r: u32)
    ensures
        r <= max,
{
    rand::thread_rng().gen_range(0..=max)
}

/// One symbol of `set` drawn at random, by `SliceRandom::choose` on
/// `rand::thread_rng()`.
///
/// Trusted: the choice is an element of the slice, and there is none exactly
/// when the slice is empty.
#[verifier::external_body]
pub(crate) fn random_symbol(set: &[char]) -> (r: Option<char>)
    ensures
        match r {
            Some(c) => set@.contains(c),
            None => set@.len() == 0,
        },
{
    set.choose(&mut rand::thread_rng()).copied()
}

} // verus!
