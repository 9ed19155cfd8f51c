use vstd::prelude::*;

verus! {

/// The pseudo-random generator that reshuffles discard piles. It is declared
/// opaque: verified code carries it as a value and never looks inside.
#[verifier::external_type_specification]
#[verifier::external_body]
pub struct ExRng(fastrand::Rng);

/// Relies on fastrand::Rng::shuffle: it rearranges the slice in place by a
/// sequence of element swaps, so no card is added, dropped or changed.
/// Nothing is promised about the resulting order, which depends on the
/// generator's state.
#[verifier::external_body]
pub(crate) fn shuffle_cards(rng: &mut fastrand::Rng, cards: &mut Vec<u8>)
    ensures
        final(cards)@.to_multiset() == old(cards)@.to_multiset(),
        final(cards)@.len() == old(cards)@.len(),
{
    rng.shuffle(cards.as_mut_slice());
}

} // verus!
