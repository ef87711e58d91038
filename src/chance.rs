//! The random draws that a run makes: which of the tied cells to fix, and
//! which of its tiles to keep.
use vstd::prelude::*;
use rand::seq::SliceRandom;

verus! {

#[verifier::external_type_specification]
#[verifier::external_body]
pub struct ExStdRng(rand::rngs::StdRng);

/// Relies on `rand::seq::SliceRandom::choose`: `None` for an empty slice,
/// drawing nothing from `rng`; else one of its elements, drawn from `rng`.
#[verifier::external_body]
pub(crate) fn pick<T: Copy>(rng: &mut rand::rngs::StdRng, items: &Vec<T>) -> (r: Option<T>)
    ensures
        r is None <==> items@.len() == 0,
        r matches Some(v) ==> items@.contains(v),
        items@.len() == 0 ==> *final(rng) == *old(rng),
{
    items.as_slice().choose(rng).copied()
}

} // verus!
