use vstd::prelude::*;
use vstd::multiset::Multiset;
use crate::rng::shuffle_cards;

verus! {

broadcast use {vstd::seq_lib::group_to_multiset_ensures, vstd::multiset::group_multiset_axioms};

/// The cards owned by one player. Cards are drawn from the deck until it is
/// empty, at which point the entire discard pile is shuffled to become the
/// new deck.
#[derive(Clone)]
pub struct PlayerDeck {
    deck: Vec<u8>,
    discard: Vec<u8>,
}

impl PlayerDeck {
    /// The draw pile; the top card is the last element.
    pub closed spec fn deck_seq(&self) -> Seq<u8> {
        self.deck@
    }

    /// The discard pile, in the order the cards were won.
    pub closed spec fn discard_seq(&self) -> Seq<u8> {
        self.discard@
    }

    /// How many cards the player still owns, over both piles.
    pub open spec fn total(&self) -> nat {
        self.deck_seq().len() + self.discard_seq().len()
    }

    /// All cards the player still owns, regardless of pile and order.
    pub open spec fn mset(&self) -> Multiset<u8> {
        self.deck_seq().to_multiset().add(self.discard_seq().to_multiset())
    }

    /// Constructs a player's piles from an initial hand. The cards start in
    /// the discard pile, so the first draw triggers a shuffle.
    pub fn new(deck: Vec<u8>) -> (r: Self)
        ensures
            r.deck_seq() == Seq::<u8>::empty(),
            r.discard_seq() == deck@,
    {
        Self { deck: Vec::new(), discard: deck }
    }

    /// The total remaining card count, over both piles.
    pub fn cards(&self) -> (r: usize)
        requires
            self.total() <= usize::MAX,
        ensures
            r == self.total(),
    {
        self.deck.len() + self.discard.len()
    }

    /// Removes and returns the top card of the draw pile, shuffling the
    /// discard pile into a new draw pile first if the draw pile is empty.
    /// Yields no card exactly when the player owns no card at all.
    pub fn draw(&mut self, rng: &mut fastrand::Rng) -> (r: Option<u8>)
        ensures
            r is Some <==> old(self).total() > 0,
            final(self).total() == if old(self).total() == 0 {
                0nat
            } else {
                (old(self).total() - 1) as nat
            },
            r matches Some(card) ==> old(self).mset() == final(self).mset().insert(card),
            r is None ==> final(self).mset() == old(self).mset(),
            // With a non-empty draw pile there is no reshuffle: the top card
            // comes off and the discard pile is untouched.
            old(self).deck_seq().len() > 0 ==> r == Some(old(self).deck_seq().last())
                && final(self).deck_seq() == old(self).deck_seq().drop_last()
                && final(self).discard_seq() == old(self).discard_seq(),
            // A draw from an empty pile reshuffles the discard pile into the
            // draw pile, leaving the discard pile empty.
            old(self).deck_seq().len() == 0 ==> final(self).discard_seq() == Seq::<u8>::empty(),
    {
        if self.deck.len() == 0 {
            shuffle_cards(rng, &mut self.discard);
            core::mem::swap(&mut self.deck, &mut self.discard);
            proof {
                assert(self.discard@ =~= Seq::<u8>::empty());
                assert(self.discard@.to_multiset() =~= Multiset::<u8>::empty());
                assert(self.mset() =~= old(self).mset());
            }
        }
        proof {
            assert(self.mset() == old(self).mset());
            assert(self.total() == old(self).total());
            assert(self.discard@.len() == 0 || self.deck@.len() > 0);
        }
        let ghost pre_deck = self.deck@;
        let ghost pre_discard_mset = self.discard@.to_multiset();
        let r = self.deck.pop();
        proof {
            if pre_deck.len() > 0 {
                let card = pre_deck[pre_deck.len() - 1];
                assert(pre_deck =~= self.deck@.push(card));
                assert(pre_deck.to_multiset() == self.deck@.to_multiset().insert(card));
                assert(pre_deck.to_multiset().add(pre_discard_mset) =~= self.deck@.to_multiset().add(
                    pre_discard_mset,
                ).insert(card));
            }
        }
        r
    }

    /// Puts a drawn card back on top of the draw pile, undoing the draw.
    pub fn return_card(&mut self, card: u8)
        ensures
            final(self).deck_seq() == old(self).deck_seq().push(card),
            final(self).discard_seq() == old(self).discard_seq(),
    {
        self.deck.push(card);
    }

    /// Appends the given cards to the discard pile, in the order given.
    /// No shuffling happens here; it happens lazily on a later draw.
    pub fn win_loot(&mut self, cards: &[u8])
        ensures
            final(self).deck_seq() == old(self).deck_seq(),
            final(self).discard_seq() == old(self).discard_seq() + cards@,
    {
        let mut i: usize = 0;
        while i < cards.len()
            invariant
                i <= cards@.len(),
                self.deck@ == old(self).deck@,
                self.discard@ == old(self).discard@ + cards@.subrange(0, i as int),
            decreases cards@.len() - i,
        {
            let card = cards[i];
            self.discard.push(card);
            proof {
                assert(self.discard@ =~= old(self).discard@ + cards@.subrange(0, i + 1));
            }
            i = i + 1;
        }
        proof {
            assert(cards@.subrange(0, cards@.len() as int) =~= cards@);
        }
    }
}

} // verus!
