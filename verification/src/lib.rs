#![verifier::loop_isolation(false)]

mod deck;
mod game;
mod rng;

pub use deck::PlayerDeck;
pub use game::{
    faceoff, faceoff_wager, faceoff_winner, higher_rank, honor_removes, lemma_war_floor, rank_diff,
    single_card, war_wager_cap, war_wager_count, Game, GameResult, Params, Player, RoundResult,
};
