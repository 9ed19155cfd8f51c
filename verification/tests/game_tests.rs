use war_sim::{
    faceoff, war_wager_cap, Game, GameResult, Params, Player, PlayerDeck, RoundResult,
};

fn new_game(k: usize, honor_threshold: u8, deck1: Vec<u8>, deck2: Vec<u8>, seed: u64) -> Game {
    Game::new(
        Params::new(k, honor_threshold),
        fastrand::Rng::with_seed(seed),
        PlayerDeck::new(deck1),
        PlayerDeck::new(deck2),
    )
}

#[test]
fn params_default_is_classic_war() {
    let params = Params::default();
    assert_eq!(params.k, 3);
    assert_eq!(params.honor_threshold, 0);
}

#[test]
fn faceoff_decisive_wagers_both_cards() {
    let mut wager = Vec::new();
    assert_eq!(faceoff(9, 4, 0, &mut wager), Some(Player::Player1));
    assert_eq!(wager, vec![9, 4]);

    let mut wager = Vec::new();
    assert_eq!(faceoff(4, 9, 0, &mut wager), Some(Player::Player2));
    assert_eq!(wager, vec![4, 9]);
}

#[test]
fn faceoff_honor_removes_losing_card() {
    let mut wager = Vec::new();
    assert_eq!(faceoff(9, 8, 2, &mut wager), Some(Player::Player1));
    assert_eq!(wager, vec![9]);

    let mut wager = Vec::new();
    assert_eq!(faceoff(8, 9, 2, &mut wager), Some(Player::Player2));
    assert_eq!(wager, vec![9]);
}

#[test]
fn faceoff_honor_boundary_is_inclusive() {
    let mut wager = Vec::new();
    assert_eq!(faceoff(9, 4, 5, &mut wager), Some(Player::Player1));
    assert_eq!(wager, vec![9]);

    let mut wager = Vec::new();
    assert_eq!(faceoff(9, 4, 4, &mut wager), Some(Player::Player1));
    assert_eq!(wager, vec![9, 4]);
}

#[test]
fn faceoff_equal_cards_tie_and_never_honor() {
    let mut wager = Vec::new();
    assert_eq!(faceoff(5, 5, 200, &mut wager), None);
    assert_eq!(wager, vec![5, 5]);
}

#[test]
fn decisive_round_awards_wager_to_winner() {
    let mut game = new_game(3, 0, vec![9], vec![4], 1);
    let round = game.play_round();
    assert_eq!(round, RoundResult::RoundWin(Player::Player1));
    assert_eq!(game.wager(), &vec![9, 4]);
    assert_eq!(game.player1_cards(), 0);
    assert_eq!(game.player2_cards(), 0);

    let mut game = new_game(3, 0, vec![9], vec![4], 1);
    let (result, turns) = game.play().expect("the game ends");
    assert_eq!(result, GameResult::Player1);
    assert_eq!(turns, 2);
    // Round one awarded both cards to player one; the card player one
    // flipped against an empty hand in round two stays in play.
    assert_eq!(game.player1_cards(), 2);
    assert_eq!(game.player2_cards(), 0);
    assert_eq!(game.wager().len(), 0);
}

#[test]
fn decisive_round_for_player_two() {
    let mut game = new_game(3, 0, vec![4], vec![9], 1);
    let round = game.play_round();
    assert_eq!(round, RoundResult::RoundWin(Player::Player2));
    assert_eq!(game.wager(), &vec![4, 9]);
}

#[test]
fn honor_removal_shrinks_the_game_by_one_card() {
    let mut game = new_game(3, 2, vec![9], vec![8], 1);
    let round = game.play_round();
    assert_eq!(round, RoundResult::RoundWin(Player::Player1));
    // Difference 1 <= 2: only the 9 is at stake; the 8 left the game.
    assert_eq!(game.wager(), &vec![9]);
    assert_eq!(game.player1_cards() + game.player2_cards() + game.wager().len(), 1);

    let mut game = new_game(3, 2, vec![9], vec![8], 1);
    assert_eq!(game.play(), Some((GameResult::Player1, 2)));
    // The 8 left the game under the honor rule; the winner keeps the 9.
    assert_eq!(game.player1_cards(), 1);
    assert_eq!(game.player2_cards(), 0);
    assert_eq!(game.wager().len(), 0);
}

#[test]
fn war_escalation_wagers_face_down_cards() {
    // All ranks equal, so every face-off ties regardless of shuffling.
    // Face-off (2 cards), then 3 and 2 face-down wagers, then a face-off of
    // the last two cards, then both players are out: a draw in one round.
    let mut game = new_game(3, 0, vec![5; 5], vec![5; 4], 42);
    let round = game.play_round();
    assert_eq!(round, RoundResult::GameResult(GameResult::Draw));
    assert_eq!(game.wager().len(), 9);
    assert_eq!(game.player1_cards(), 0);
    assert_eq!(game.player2_cards(), 0);
}

#[test]
fn war_floor_keeps_a_single_card_in_hand() {
    // After the tie both players are at the floor: player one holds one card
    // and wagers none; player two holds none and the next face-off ends it,
    // with the card player one flipped going back into their pile.
    let mut game = new_game(3, 0, vec![5, 5], vec![5], 9);
    let round = game.play_round();
    assert_eq!(round, RoundResult::GameResult(GameResult::Player1));
    assert_eq!(game.wager(), &vec![5, 5]);
    assert_eq!(game.player1_cards(), 1);
    assert_eq!(game.player2_cards(), 0);

    // Driven to the end, the winner takes the war's stake as well.
    let mut game = new_game(3, 0, vec![5, 5], vec![5], 9);
    assert_eq!(game.play(), Some((GameResult::Player1, 1)));
    assert_eq!(game.player1_cards(), 3);
    assert_eq!(game.player2_cards(), 0);
    assert_eq!(game.wager().len(), 0);
}

#[test]
fn zero_war_depth_still_resolves_ties() {
    // k = 0: a tie wagers no face-down cards; the players simply flip again.
    let mut game = new_game(0, 0, vec![5, 5], vec![5, 5], 2);
    assert_eq!(game.play(), Some((GameResult::Draw, 1)));
    assert_eq!(game.wager().len(), 4);
}

#[test]
fn war_wager_cap_saturates() {
    assert_eq!(war_wager_cap(0, 3), 0);
    assert_eq!(war_wager_cap(1, 3), 0);
    assert_eq!(war_wager_cap(3, 3), 2);
    assert_eq!(war_wager_cap(5, 3), 3);
    assert_eq!(war_wager_cap(5, 0), 0);
}

#[test]
fn exhausted_player_loses_immediately() {
    let mut game = new_game(3, 0, vec![], vec![7], 5);
    assert_eq!(game.play(), Some((GameResult::Player2, 1)));
    // The survivor keeps the card flipped against the empty hand.
    assert_eq!(game.player2_cards(), 1);
    assert_eq!(game.wager().len(), 0);

    let mut game = new_game(3, 0, vec![7], vec![], 5);
    assert_eq!(game.play(), Some((GameResult::Player1, 1)));

    let mut game = new_game(3, 0, vec![], vec![], 5);
    assert_eq!(game.play(), Some((GameResult::Draw, 1)));
}

#[test]
fn no_honor_round_conserves_cards() {
    let mut game = new_game(1, 0, vec![3, 7, 2], vec![9, 1], 77);
    let total_before = game.player1_cards() + game.player2_cards();
    let _round = game.play_round();
    // Whatever the round's outcome, every card is still in play.
    let total_after = game.player1_cards() + game.player2_cards() + game.wager().len();
    assert_eq!(total_after, total_before);
}

#[test]
fn no_honor_game_ends_with_loser_empty() {
    let mut game = new_game(2, 0, vec![3, 7, 2, 8], vec![9, 1, 6], 123);
    let total = 7;
    let (result, turns) = game.play().expect("the game ends");
    assert!(turns >= 1);
    match result {
        GameResult::Player1 => {
            assert_eq!(game.player2_cards(), 0);
            assert_eq!(game.player1_cards(), total);
            assert_eq!(game.wager().len(), 0);
        }
        GameResult::Player2 => {
            assert_eq!(game.player1_cards(), 0);
            assert_eq!(game.player2_cards(), total);
            assert_eq!(game.wager().len(), 0);
        }
        GameResult::Draw => {
            assert_eq!(game.player1_cards(), 0);
            assert_eq!(game.player2_cards(), 0);
            assert_eq!(game.wager().len(), total);
        }
    }
}

#[test]
fn fixed_seed_games_are_deterministic() {
    let deck1 = vec![12, 3, 7, 9, 1, 4, 11, 2];
    let deck2 = vec![5, 8, 10, 6, 13, 2, 7, 9];
    let mut first = new_game(2, 1, deck1.clone(), deck2.clone(), 12345);
    let mut second = new_game(2, 1, deck1, deck2, 12345);
    let outcome1 = first.play();
    let outcome2 = second.play();
    assert_eq!(outcome1, outcome2);
    assert_eq!(first.player1_cards(), second.player1_cards());
    assert_eq!(first.player2_cards(), second.player2_cards());
    assert_eq!(first.wager(), second.wager());
}
