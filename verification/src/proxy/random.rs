//! Random values.

use rand::seq::{IndexedRandom, SliceRandom};
use rand::{Rng, RngExt};
use vstd::prelude::*;

use crate::proxy::text;

verus! {

/// Calls `rand::Rng::fill_bytes` on `rand::rng()`. Claims the number of bytes alone: their values
/// are random.
#[verifier::external_body]
pub(crate) fn random_bytes(len: usize) -> (out: Vec<u8>)
    ensures
        out@.len() == len,
{
    let mut out = vec![0u8; len];
    rand::rng().fill_bytes(&mut out);
    out
}

/// Calls `rand::RngExt::random_range` on `rand::rng()`. Claims that the result lies in the range:
/// which value it is, is random.
#[verifier::external_body]
pub(crate) fn random_range(low: usize, high: usize) -> (out: usize)
    requires
        low < high,
    ensures
        low <= out < high,
{
    rand::rng().random_range(low..high)
}

/// Calls `rand::seq::IndexedRandom::choose` with `rand::rng()`. Claims that it gives one of the
/// texts, and none exactly when there is none: which one, is random.
#[verifier::external_body]
pub(crate) fn choose_text(list: &Vec<String>) -> (out: Option<String>)
    ensures
        out is None <==> list@.len() == 0,
        out matches Some(text) ==> exists|i: int|
            0 <= i < list@.len() && text@ == #[trigger] list@[i]@,
{
    list.choose(&mut rand::rng()).cloned()
}

/// Calls `rand::seq::SliceRandom::shuffle` with `rand::rng()`. Claims that the texts stay the
/// same, each as often as before: their order is random.
#[verifier::external_body]
pub(crate) fn shuffle_texts(list: &mut Vec<String>)
    ensures
        text::text_views(final(list)@).to_multiset() == text::text_views(
            old(list)@,
        ).to_multiset(),
{
    list.shuffle(&mut rand::rng());
}

} // verus!
