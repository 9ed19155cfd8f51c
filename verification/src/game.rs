use vstd::prelude::*;
use vstd::multiset::Multiset;
use crate::deck::PlayerDeck;

verus! {

broadcast use {
    vstd::seq_lib::group_to_multiset_ensures,
    vstd::seq_lib::lemma_multiset_commutative,
    vstd::multiset::group_multiset_axioms,
};

/// One of the two players of a game.
#[derive(Clone, Copy, Debug, PartialEq, Eq, Structural)]
pub enum Player {
    Player1,
    Player2,
}

/// The winner of a game (repeated rounds, until one player has the entire
/// deck). The game may draw if both players flip their last card in a war.
#[derive(Clone, Copy, Debug, PartialEq, Eq, Structural)]
pub enum GameResult {
    Player1,
    Player2,
    Draw,
}

/// The outcome of an individual round, which may consist of one or more wars:
/// either the game ended during the round, or one player won the round and is
/// owed the wagered cards.
#[derive(Clone, Copy, Debug, PartialEq, Eq, Structural)]
pub enum RoundResult {
    GameResult(GameResult),
    RoundWin(Player),
}

/// The rule parameters of a game.
#[derive(Clone, Copy, Debug, PartialEq, Eq, Structural)]
pub struct Params {
    /// Each player wagers up to this many cards face-down in a war.
    pub k: usize,
    /// A card that loses a face-off by this margin or less is removed from
    /// the game instead of going to the winner.
    pub honor_threshold: u8,
}

impl Params {
    pub fn new(k: usize, honor_threshold: u8) -> (r: Self)
        ensures
            r == (Params { k, honor_threshold }),
    {
        Self { k, honor_threshold }
    }
}

impl Default for Params {
    /// Classic war: three face-down cards per war, no honor rule.
    fn default() -> (r: Self)
        ensures
            r == (Params { k: 3, honor_threshold: 0 }),
    {
        Params::new(3, 0)
    }
}

/// The margin by which two ranks differ.
pub open spec fn rank_diff(card1: u8, card2: u8) -> int {
    if card1 >= card2 {
        card1 - card2
    } else {
        card2 - card1
    }
}

/// The honor rule removes the losing card when the cards differ, but by no
/// more than the threshold. Equal cards never trigger it: they start a war.
pub open spec fn honor_removes(card1: u8, card2: u8, honor_threshold: u8) -> bool {
    card1 != card2 && rank_diff(card1, card2) <= honor_threshold
}

/// The higher of two ranks.
pub open spec fn higher_rank(card1: u8, card2: u8) -> u8 {
    if card1 >= card2 {
        card1
    } else {
        card2
    }
}

/// The cards a face-off adds to the round's wager: both cards, unless the
/// honor rule removes the losing card from the game.
pub open spec fn faceoff_wager(card1: u8, card2: u8, honor_threshold: u8) -> Seq<u8> {
    if honor_removes(card1, card2, honor_threshold) {
        seq![higher_rank(card1, card2)]
    } else {
        seq![card1, card2]
    }
}

/// A hand holding exactly the one card `card`.
pub open spec fn single_card(card: u8) -> Multiset<u8> {
    Multiset::<u8>::empty().insert(card)
}

/// The winner of a face-off, if any: the player with the strictly higher card.
pub open spec fn faceoff_winner(card1: u8, card2: u8) -> Option<Player> {
    if card1 > card2 {
        Some(Player::Player1)
    } else if card2 > card1 {
        Some(Player::Player2)
    } else {
        None
    }
}

/// Resolves one face-off: appends the wagered cards to `wager` (leaving the
/// losing card out when the honor rule removes it from the game) and names
/// the round's winner, or `None` on a tie.
pub fn faceoff(card1: u8, card2: u8, honor_threshold: u8, wager: &mut Vec<u8>) -> (winner: Option<
    Player,
>)
    ensures
        final(wager)@ == old(wager)@ + faceoff_wager(card1, card2, honor_threshold),
        winner == faceoff_winner(card1, card2),
{
    let diff = if card1 >= card2 {
        card1 - card2
    } else {
        card2 - card1
    };
    if card1 != card2 && diff <= honor_threshold {
        wager.push(if card1 >= card2 {
            card1
        } else {
            card2
        });
    } else {
        wager.push(card1);
        wager.push(card2);
    }
    proof {
        assert(wager@ =~= old(wager)@ + faceoff_wager(card1, card2, honor_threshold));
    }
    if card1 > card2 {
        Some(Player::Player1)
    } else if card2 > card1 {
        Some(Player::Player2)
    } else {
        None
    }
}

/// How many cards a player holding `cards` cards wagers face-down in one war
/// escalation: up to `k`, but always keeping at least one card in hand for
/// the next face-off.
pub open spec fn war_wager_count(cards: nat, k: nat) -> nat {
    if cards == 0 {
        0
    } else if cards - 1 <= k {
        (cards - 1) as nat
    } else {
        k
    }
}

/// The war floor: an escalation never wagers more than `k` cards, a player
/// with a single card (or none) wagers nothing, and a wagering player always
/// keeps at least one card for the next face-off.
pub proof fn lemma_war_floor(cards: nat, k: nat)
    ensures
        war_wager_count(cards, k) <= k,
        cards == 1 ==> war_wager_count(cards, k) == 0,
        cards >= 1 ==> war_wager_count(cards, k) < cards,
{
}

/// The executable counterpart of `war_wager_count`: `min(cards - 1, k)`,
/// saturating at zero.
pub fn war_wager_cap(cards: usize, k: usize) -> (n: usize)
    ensures
        n == war_wager_count(cards as nat, k as nat),
{
    let base = if cards == 0 {
        0
    } else {
        cards - 1
    };
    if base <= k {
        base
    } else {
        k
    }
}

/// Draws `count` face-down cards from one player's piles into the round's
/// wager. The cards move: none is gained or lost, and the order in which
/// they arrive depends only on the piles and the generator.
fn wager_face_down(player: &mut PlayerDeck, rng: &mut fastrand::Rng, wager: &mut Vec<u8>, count: usize)
    requires
        count <= old(player).total(),
    ensures
        final(player).total() == old(player).total() - count,
        final(wager)@.len() == old(wager)@.len() + count,
        final(player).mset().add(final(wager)@.to_multiset()) == old(player).mset().add(
            old(wager)@.to_multiset(),
        ),
{
    let mut i: usize = 0;
    while i < count
        invariant
            i <= count,
            player.total() == old(player).total() - i,
            wager@.len() == old(wager)@.len() + i,
            player.mset().add(wager@.to_multiset()) == old(player).mset().add(
                old(wager)@.to_multiset(),
            ),
        decreases count - i,
    {
        let ghost pre_player = *player;
        let ghost pre_wager = wager@;
        let drawn = player.draw(rng);
        proof {
            assert(drawn is Some);
        }
        if let Some(card) = drawn {
            wager.push(card);
            proof {
                assert(wager@.to_multiset() == pre_wager.to_multiset().insert(card));
                assert(player.mset().add(wager@.to_multiset()) =~= pre_player.mset().add(
                    pre_wager.to_multiset(),
                ));
            }
        }
        i = i + 1;
    }
}

/// A hand of exactly one card is that card's singleton multiset.
proof fn lemma_singleton_hand(player: PlayerDeck)
    requires
        player.total() == 1,
    ensures
        exists|card: u8| player.mset() == #[trigger] single_card(card),
{
    assert(Seq::<u8>::empty().to_multiset() =~= Multiset::<u8>::empty());
    if player.deck_seq().len() == 1 {
        let card = player.deck_seq()[0];
        assert(player.deck_seq() =~= Seq::<u8>::empty().push(card));
        assert(player.discard_seq().to_multiset() =~= Multiset::<u8>::empty());
        assert(player.mset() =~= single_card(card));
    } else {
        let card = player.discard_seq()[0];
        assert(player.discard_seq() =~= Seq::<u8>::empty().push(card));
        assert(player.deck_seq().to_multiset() =~= Multiset::<u8>::empty());
        assert(player.mset() =~= single_card(card));
    }
}

/// A game in progress: the rule parameters, the shuffling generator, the two
/// players' piles, and a workspace holding the cards wagered in the round in
/// progress.
pub struct Game {
    params: Params,
    rng: fastrand::Rng,
    player1: PlayerDeck,
    player2: PlayerDeck,
    work: Vec<u8>,
}

impl Game {
    /// Player one's piles.
    pub closed spec fn p1(&self) -> PlayerDeck {
        self.player1
    }

    /// Player two's piles.
    pub closed spec fn p2(&self) -> PlayerDeck {
        self.player2
    }

    /// The rule parameters the game was created with.
    pub closed spec fn cfg(&self) -> Params {
        self.params
    }

    /// The cards wagered in the round in progress, in the order they arrived.
    pub closed spec fn wager_seq(&self) -> Seq<u8> {
        self.work@
    }

    /// The wagered cards, regardless of order.
    pub open spec fn wager_mset(&self) -> Multiset<u8> {
        self.wager_seq().to_multiset()
    }

    /// Every card still held in either player's piles.
    pub open spec fn decks_mset(&self) -> Multiset<u8> {
        self.p1().mset().add(self.p2().mset())
    }

    /// The combined card count fits the machine: established at construction
    /// and kept by every round, since cards never enter the game.
    pub open spec fn inv(&self) -> bool {
        self.p1().total() + self.p2().total() <= usize::MAX
    }

    /// Create (but do not simulate) a new game with the given player decks.
    pub fn new(params: Params, rng: fastrand::Rng, player1: PlayerDeck, player2: PlayerDeck) -> (r:
        Self)
        requires
            player1.total() + player2.total() <= usize::MAX,
        ensures
            r.cfg() == params,
            r.p1() == player1,
            r.p2() == player2,
            r.wager_seq() == Seq::<u8>::empty(),
            r.inv(),
    {
        Self { params, rng, player1, player2, work: Vec::new() }
    }

    /// How many cards player one still owns.
    pub fn player1_cards(&self) -> (r: usize)
        requires
            self.inv(),
        ensures
            r == self.p1().total(),
    {
        self.player1.cards()
    }

    /// How many cards player two still owns.
    pub fn player2_cards(&self) -> (r: usize)
        requires
            self.inv(),
        ensures
            r == self.p2().total(),
    {
        self.player2.cards()
    }

    /// The cards wagered in the round in progress (after a terminal round:
    /// the cards that were at stake when the game ended).
    pub fn wager(&self) -> (r: &Vec<u8>)
        ensures
            r@ == self.wager_seq(),
    {
        &self.work
    }

    /// Plays one round: face-offs and the wars they escalate into, until one
    /// player wins the round outright or the game ends. The wagered cards
    /// accumulate in the wager workspace; awarding them to the round's winner
    /// is the caller's move.
    pub fn play_round(&mut self) -> (r: RoundResult)
        requires
            old(self).inv(),
        ensures
            final(self).inv(),
            final(self).cfg() == old(self).cfg(),
            // Cards never enter the game mid-round; without the honor rule
            // none leaves it either: the decks and the wager together hold
            // exactly what the decks held before, whatever the result.
            final(self).decks_mset().add(final(self).wager_mset()).subset_of(
                old(self).decks_mset(),
            ),
            final(self).p1().total() + final(self).p2().total() + final(self).wager_seq().len()
                <= old(self).p1().total() + old(self).p2().total(),
            old(self).cfg().honor_threshold == 0 ==> final(self).decks_mset().add(
                final(self).wager_mset(),
            ) == old(self).decks_mset(),
            // A player found without a card at the first face-off loses at
            // once, and nothing is wagered.
            old(self).p1().total() == 0 || old(self).p2().total() == 0 ==> final(self).wager_seq()
                == Seq::<u8>::empty(),
            old(self).p1().total() == 0 && old(self).p2().total() == 0 ==> r
                == RoundResult::GameResult(GameResult::Draw),
            old(self).p1().total() == 0 && old(self).p2().total() > 0 ==> r
                == RoundResult::GameResult(GameResult::Player2),
            old(self).p1().total() > 0 && old(self).p2().total() == 0 ==> r
                == RoundResult::GameResult(GameResult::Player1),
            // The game ends only against an exhausted player.
            r == RoundResult::GameResult(GameResult::Draw) ==> final(self).p1().total() == 0
                && final(self).p2().total() == 0,
            r == RoundResult::GameResult(GameResult::Player1) ==> final(self).p2().total() == 0,
            r == RoundResult::GameResult(GameResult::Player2) ==> final(self).p1().total() == 0,
            r is RoundWin ==> final(self).wager_seq().len() >= 1,
            // With one known card on each side and distinct ranks, the round
            // is decided at the first face-off.
            forall|a: u8, b: u8|
                old(self).p1().total() == 1 && old(self).p2().total() == 1 && old(self).p1().mset()
                    == #[trigger] single_card(a) && old(self).p2().mset() == #[trigger] single_card(
                    b,
                ) && a != b ==> r == RoundResult::RoundWin(
                    if a > b {
                        Player::Player1
                    } else {
                        Player::Player2
                    },
                ) && final(self).wager_seq() == faceoff_wager(
                    a,
                    b,
                    old(self).cfg().honor_threshold,
                ) && final(self).p1().total() == 0 && final(self).p2().total() == 0,
    {
        let k = self.params.k;
        let honor_threshold = self.params.honor_threshold;
        self.work.clear();
        proof {
            assert(self.wager_mset() =~= Multiset::<u8>::empty());
            assert(self.decks_mset().add(self.wager_mset()) =~= old(self).decks_mset());
        }
        loop
            invariant
                self.inv(),
                self.cfg() == old(self).cfg(),
                k == old(self).cfg().k,
                honor_threshold == old(self).cfg().honor_threshold,
                self.decks_mset().add(self.wager_mset()).subset_of(old(self).decks_mset()),
                self.p1().total() + self.p2().total() + self.wager_seq().len() <= old(
                    self,
                ).p1().total() + old(self).p2().total(),
                old(self).cfg().honor_threshold == 0 ==> self.decks_mset().add(self.wager_mset())
                    == old(self).decks_mset(),
                old(self).p1().total() == 0 && old(self).p2().total() == 0 ==> self.p1().total()
                    == 0 && self.p2().total() == 0,
                old(self).p1().total() == 0 && old(self).p2().total() > 0 ==> self.p1().total()
                    == 0 && self.p2().total() > 0,
                old(self).p1().total() > 0 && old(self).p2().total() == 0 ==> self.p1().total() > 0
                    && self.p2().total() == 0,
                old(self).p1().total() == 1 && old(self).p2().total() == 1 && old(self).p1().mset()
                    != old(self).p2().mset() ==> self.p1() == old(self).p1() && self.p2() == old(
                    self,
                ).p2() && self.wager_seq() == Seq::<u8>::empty(),
                old(self).p1().total() == 0 || old(self).p2().total() == 0 ==> self.wager_seq()
                    == Seq::<u8>::empty(),
            decreases self.p1().total() + self.p2().total(),
        {
            let ghost pre = *self;
            proof {
                assert forall|a: u8, b: u8| a != b implies single_card(a) != single_card(b) by {
                    assert(single_card(a).count(a) == 1);
                    assert(single_card(b).count(a) == 0);
                }
            }
            // Each player plays a card, if possible. A player who cannot has
            // lost the game.
            let card1_opt = self.player1.draw(&mut self.rng);
            let card2_opt = self.player2.draw(&mut self.rng);
            let (card1, card2) = match (card1_opt, card2_opt) {
                (None, None) => {
                    return RoundResult::GameResult(GameResult::Draw);
                },
                (None, Some(card2)) => {
                    // The loser could not answer: the survivor's flipped card
                    // goes back on top of their draw pile and stays in play.
                    self.player2.return_card(card2);
                    proof {
                        assert(self.p2().mset() =~= pre.p2().mset());
                        assert(self.decks_mset().add(self.wager_mset()) =~= pre.decks_mset().add(
                            pre.wager_mset(),
                        ));
                    }
                    return RoundResult::GameResult(GameResult::Player2);
                },
                (Some(card1), None) => {
                    self.player1.return_card(card1);
                    proof {
                        assert(self.p1().mset() =~= pre.p1().mset());
                        assert(self.decks_mset().add(self.wager_mset()) =~= pre.decks_mset().add(
                            pre.wager_mset(),
                        ));
                    }
                    return RoundResult::GameResult(GameResult::Player1);
                },
                (Some(card1), Some(card2)) => (card1, card2),
            };
            let ghost drawn = *self;
            let winner = faceoff(card1, card2, honor_threshold, &mut self.work);
            proof {
                assert(seq![card1, card2] =~= Seq::<u8>::empty().push(card1).push(card2));
                assert(seq![higher_rank(card1, card2)] =~= Seq::<u8>::empty().push(
                    higher_rank(card1, card2),
                ));
                assert(Seq::<u8>::empty().to_multiset() =~= Multiset::<u8>::empty());
                if honor_removes(card1, card2, honor_threshold) {
                    let lower = if card1 >= card2 {
                        card2
                    } else {
                        card1
                    };
                    assert(pre.decks_mset().add(pre.wager_mset()) =~= self.decks_mset().add(
                        self.wager_mset(),
                    ).insert(lower));
                    assert(self.decks_mset().add(self.wager_mset()).subset_of(
                        old(self).decks_mset(),
                    ));
                } else {
                    assert(self.decks_mset().add(self.wager_mset()) =~= pre.decks_mset().add(
                        pre.wager_mset(),
                    ));
                }
                if old(self).p1().total() == 1 && old(self).p2().total() == 1 && old(
                    self,
                ).p1().mset() != old(self).p2().mset() {
                    assert(drawn.p1().mset().len() == 0);
                    assert(drawn.p1().mset() =~= Multiset::<u8>::empty());
                    assert(drawn.p2().mset().len() == 0);
                    assert(drawn.p2().mset() =~= Multiset::<u8>::empty());
                    assert(old(self).p1().mset() == single_card(card1));
                    assert(old(self).p2().mset() == single_card(card2));
                    assert(self.wager_seq() =~= faceoff_wager(card1, card2, honor_threshold));
                    assert forall|a: u8, b: u8|
                        old(self).p1().mset() == #[trigger] single_card(a) && old(self).p2().mset()
                            == #[trigger] single_card(b) implies a == card1 && b == card2 by {
                        assert(single_card(a).count(a) == 1);
                        assert(single_card(card1).count(a) == if a == card1 {
                            1nat
                        } else {
                            0nat
                        });
                        assert(single_card(b).count(b) == 1);
                        assert(single_card(card2).count(b) == if b == card2 {
                            1nat
                        } else {
                            0nat
                        });
                    }
                }
            }
            match winner {
                Some(Player::Player1) => {
                    return RoundResult::RoundWin(Player::Player1);
                },
                Some(Player::Player2) => {
                    return RoundResult::RoundWin(Player::Player2);
                },
                None => {
                    // A war: each player wagers up to `k` cards face-down,
                    // keeping at least one in hand, and the loop draws the
                    // next face-off pair on top of the same wager.
                    let ghost tied = *self;
                    let cap1 = war_wager_cap(self.player1.cards(), k);
                    wager_face_down(&mut self.player1, &mut self.rng, &mut self.work, cap1);
                    let ghost after1 = *self;
                    proof {
                        assert forall|card: u8|
                            self.decks_mset().add(self.wager_mset()).count(card)
                                == tied.decks_mset().add(tied.wager_mset()).count(card) by {
                            assert(self.p1().mset().add(self.wager_mset()).count(card)
                                == tied.p1().mset().add(tied.wager_mset()).count(card));
                        }
                        assert(self.decks_mset().add(self.wager_mset()) =~= tied.decks_mset().add(
                            tied.wager_mset(),
                        ));
                    }
                    let cap2 = war_wager_cap(self.player2.cards(), k);
                    wager_face_down(&mut self.player2, &mut self.rng, &mut self.work, cap2);
                    proof {
                        assert forall|card: u8|
                            self.decks_mset().add(self.wager_mset()).count(card)
                                == after1.decks_mset().add(after1.wager_mset()).count(card) by {
                            assert(self.p2().mset().add(self.wager_mset()).count(card)
                                == after1.p2().mset().add(after1.wager_mset()).count(card));
                        }
                        assert(self.decks_mset().add(self.wager_mset())
                            =~= after1.decks_mset().add(after1.wager_mset()));
                    }
                },
            }
        }
    }

    /// Plays this game to completion, returning the winner and the number of
    /// rounds taken, counting from 1. Returns `None` only in the unreachable
    /// event that the round counter would overflow.
    pub fn play(&mut self) -> (r: Option<(GameResult, u64)>)
        requires
            old(self).inv(),
        ensures
            final(self).inv(),
            final(self).cfg() == old(self).cfg(),
            r matches Some(outcome) ==> 1 <= outcome.1,
            // The game ends only against an exhausted player, and the final
            // round's stake has been handed to the winner; only a drawn game
            // leaves the cards in the wager, with nobody to take them.
            r matches Some(outcome) && outcome.0 == GameResult::Draw ==> final(self).p1().total()
                == 0 && final(self).p2().total() == 0,
            r matches Some(outcome) && outcome.0 == GameResult::Player1
                ==> final(self).p2().total() == 0 && final(self).wager_seq() == Seq::<u8>::empty(),
            r matches Some(outcome) && outcome.0 == GameResult::Player2
                ==> final(self).p1().total() == 0 && final(self).wager_seq() == Seq::<u8>::empty(),
            // Cards never enter the game.
            final(self).decks_mset().subset_of(old(self).decks_mset()),
            final(self).decks_mset().add(final(self).wager_mset()).subset_of(
                old(self).decks_mset(),
            ),
            // Conservation: without the honor rule every card stays in play,
            // whatever the result: the winner ends holding every card the two
            // players were dealt, and a drawn game leaves them all in the
            // final war's wager.
            old(self).cfg().honor_threshold == 0 ==> final(self).decks_mset().add(
                final(self).wager_mset(),
            ) == old(self).decks_mset(),
            r matches Some(outcome) && outcome.0 == GameResult::Player1 && old(
                self,
            ).cfg().honor_threshold == 0 ==> final(self).p1().mset() == old(self).decks_mset(),
            r matches Some(outcome) && outcome.0 == GameResult::Player2 && old(
                self,
            ).cfg().honor_threshold == 0 ==> final(self).p2().mset() == old(self).decks_mset(),
            r matches Some(outcome) && outcome.0 == GameResult::Draw && old(
                self,
            ).cfg().honor_threshold == 0 ==> final(self).wager_mset() == old(self).decks_mset(),
            old(self).cfg().honor_threshold == 0 && r is None
                ==> final(self).decks_mset() == old(self).decks_mset(),
            // A game against an exhausted player ends on its first round.
            old(self).p1().total() == 0 && old(self).p2().total() == 0 ==> r == Some(
                (GameResult::Draw, 1u64),
            ),
            old(self).p1().total() == 0 && old(self).p2().total() > 0 ==> r == Some(
                (GameResult::Player2, 1u64),
            ),
            old(self).p1().total() > 0 && old(self).p2().total() == 0 ==> r == Some(
                (GameResult::Player1, 1u64),
            ),
            // With one known card on each side and distinct ranks, the higher
            // card wins the only contested round, and the game ends when the
            // loser cannot answer the next face-off.
            forall|a: u8, b: u8|
                old(self).p1().total() == 1 && old(self).p2().total() == 1 && old(self).p1().mset()
                    == #[trigger] single_card(a) && old(self).p2().mset() == #[trigger] single_card(
                    b,
                ) && a != b ==> r == Some(
                    (
                        if a > b {
                            GameResult::Player1
                        } else {
                            GameResult::Player2
                        },
                        2u64,
                    ),
                ),
    {
        let mut turn: u64 = 0;
        loop
            invariant
                self.inv(),
                self.cfg() == old(self).cfg(),
                self.decks_mset().subset_of(old(self).decks_mset()),
                old(self).cfg().honor_threshold == 0 ==> self.decks_mset() == old(
                    self,
                ).decks_mset(),
                turn >= 1 ==> self.wager_seq() == Seq::<u8>::empty(),
                old(self).p1().total() == 0 || old(self).p2().total() == 0 ==> turn == 0
                    && self.p1() == old(self).p1() && self.p2() == old(self).p2(),
                old(self).p1().total() == 1 && old(self).p2().total() == 1 && old(self).p1().mset()
                    != old(self).p2().mset() ==> (turn == 0 && self.p1() == old(self).p1()
                    && self.p2() == old(self).p2()) || (turn == 1 && forall|a: u8, b: u8|
                    old(self).p1().mset() == #[trigger] single_card(a) && old(self).p2().mset()
                        == #[trigger] single_card(b) ==> (if a > b {
                        self.p1().total() > 0 && self.p2().total() == 0
                    } else {
                        self.p1().total() == 0 && self.p2().total() > 0
                    })),
            decreases u64::MAX - turn,
        {
            proof {
                assert forall|a: u8, b: u8| single_card(a) == single_card(b) implies a == b by {
                    assert(single_card(a).count(a) == 1);
                    assert(single_card(b).count(a) == (if a == b {
                        1nat
                    } else {
                        0nat
                    }));
                }
                if old(self).p1().total() == 1 && old(self).p2().total() == 1 {
                    lemma_singleton_hand(old(self).p1());
                    lemma_singleton_hand(old(self).p2());
                }
                assert(Seq::<u8>::empty().to_multiset() =~= Multiset::<u8>::empty());
            }
            if turn == u64::MAX {
                return None;
            }
            turn = turn + 1;
            let round = self.play_round();
            proof {
                if old(self).p1().total() == 1 && old(self).p2().total() == 1 && old(
                    self,
                ).p1().mset() != old(self).p2().mset() {
                    let a = choose|a: u8| old(self).p1().mset() == single_card(a);
                    let b = choose|b: u8| old(self).p2().mset() == single_card(b);
                    assert(old(self).p1().mset() == single_card(a));
                    assert(old(self).p2().mset() == single_card(b));
                    assert(a != b);
                    if turn == 1 {
                        assert(round == RoundResult::RoundWin(
                            if a > b {
                                Player::Player1
                            } else {
                                Player::Player2
                            },
                        ));
                        assert(self.wager_seq().len() >= 1);
                    } else {
                        assert(turn == 2);
                        assert(round == RoundResult::GameResult(
                            if a > b {
                                GameResult::Player1
                            } else {
                                GameResult::Player2
                            },
                        ));
                    }
                }
            }
            match round {
                RoundResult::RoundWin(Player::Player1) => {
                    let ghost won = *self;
                    self.player1.win_loot(self.work.as_slice());
                    self.work.clear();
                    proof {
                        assert(self.p1().mset() =~= won.p1().mset().add(won.wager_mset()));
                        assert(self.decks_mset() =~= won.decks_mset().add(won.wager_mset()));
                    }
                },
                RoundResult::RoundWin(Player::Player2) => {
                    let ghost won = *self;
                    self.player2.win_loot(self.work.as_slice());
                    self.work.clear();
                    proof {
                        assert(self.p2().mset() =~= won.p2().mset().add(won.wager_mset()));
                        assert(self.decks_mset() =~= won.decks_mset().add(won.wager_mset()));
                    }
                },
                RoundResult::GameResult(result) => {
                    // The final round's stake goes to the game's winner; on a
                    // draw there is nobody left to take it.
                    match result {
                        GameResult::Player1 => {
                            let ghost won = *self;
                            self.player1.win_loot(self.work.as_slice());
                            self.work.clear();
                            proof {
                                assert(self.p1().mset() =~= won.p1().mset().add(
                                    won.wager_mset(),
                                ));
                                assert(self.decks_mset() =~= won.decks_mset().add(
                                    won.wager_mset(),
                                ));
                            }
                        },
                        GameResult::Player2 => {
                            let ghost won = *self;
                            self.player2.win_loot(self.work.as_slice());
                            self.work.clear();
                            proof {
                                assert(self.p2().mset() =~= won.p2().mset().add(
                                    won.wager_mset(),
                                ));
                                assert(self.decks_mset() =~= won.decks_mset().add(
                                    won.wager_mset(),
                                ));
                            }
                        },
                        GameResult::Draw => {},
                    }
                    proof {
                        if result == GameResult::Draw {
                            assert(self.p1().mset() =~= Multiset::<u8>::empty());
                            assert(self.p2().mset() =~= Multiset::<u8>::empty());
                            assert(self.wager_mset() =~= self.decks_mset().add(self.wager_mset()));
                        } else {
                            assert(self.wager_mset() =~= Multiset::<u8>::empty());
                            assert(self.decks_mset().add(self.wager_mset()) =~= self.decks_mset());
                        }
                        if result == GameResult::Player1 {
                            assert(self.p2().mset() =~= Multiset::<u8>::empty());
                            assert(self.p1().mset() =~= self.decks_mset());
                        }
                        if result == GameResult::Player2 {
                            assert(self.p1().mset() =~= Multiset::<u8>::empty());
                            assert(self.p2().mset() =~= self.decks_mset());
                        }
                    }
                    return Some((result, turn));
                },
            }
        }
    }
}

} // verus!
