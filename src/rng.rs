use rand::seq::IteratorRandom;
use rand::Rng;
use rand_chacha::ChaCha8Rng;
use vstd::prelude::*;

use crate::operation::OperationType;

verus! {

/// The seeded random source that every generation call draws from.
#[verifier::external_type_specification]
#[verifier::external_body]
pub struct ExChaCha8Rng(ChaCha8Rng);

/// Relies on rand's `Rng::random_ratio`: a one-in-two draw never panics and may
/// come out either way.
#[verifier::external_body]
pub(crate) fn coin_flip(rng: &mut ChaCha8Rng) -> bool {
    rng.random_ratio(1, 2)
}

/// Relies on rand's `IteratorRandom::choose` over an inclusive range: it yields
/// `None` exactly when the range is empty, and otherwise one of its members.
#[verifier::external_body]
pub(crate) fn choose_between(rng: &mut ChaCha8Rng, lo: i16, hi: i16) -> (r: Option<i16>)
    ensures
        r is Some <==> lo <= hi,
        r is Some ==> lo <= r.unwrap() && r.unwrap() <= hi,
{
    (lo..=hi).choose(rng)
}

/// Relies on rand's `IteratorRandom::choose` over a slice's items: it yields
/// `None` exactly when there are none, and otherwise one of them.
#[verifier::external_body]
pub(crate) fn choose_operation(rng: &mut ChaCha8Rng, ops: &Vec<OperationType>) -> (r: Option<
    OperationType,
>)
    ensures
        r is Some <==> ops@.len() > 0,
        r is Some ==> ops@.contains(r.unwrap()),
{
    ops.iter().choose(rng).copied()
}

} // verus!
