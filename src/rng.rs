use vstd::prelude::*;
use rand::rngs::StdRng;
use rand::seq::SliceRandom;
use crate::moves::Move;

verus! {

/// rand's standard seedable generator, carried through opaquely.
#[verifier::external_type_specification]
#[verifier::external_body]
pub struct ExStdRng(StdRng);

/// Relies on rand's `SliceRandom::shuffle` for slices: a Fisher-Yates
/// shuffle that only swaps elements, so the moves come back permuted.
#[verifier::external_body]
pub(crate) fn shuffle_moves(moves: &mut Vec<Move>, rng: &mut StdRng)
    ensures
        final(moves)@.to_multiset() == old(moves)@.to_multiset(),
{
    moves.shuffle(rng);
}

} // verus!
