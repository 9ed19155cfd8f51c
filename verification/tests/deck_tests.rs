use war_sim::PlayerDeck;

#[test]
fn new_deck_counts_initial_cards() {
    let deck = PlayerDeck::new(vec![1, 2, 3]);
    assert_eq!(deck.cards(), 3);
}

#[test]
fn new_empty_deck_has_no_cards() {
    let deck = PlayerDeck::new(vec![]);
    assert_eq!(deck.cards(), 0);
}

#[test]
fn draw_hands_out_every_card_exactly_once() {
    let mut rng = fastrand::Rng::with_seed(7);
    let mut deck = PlayerDeck::new(vec![10, 20, 30]);
    let mut seen = Vec::new();
    for _ in 0..3 {
        let card = deck.draw(&mut rng).expect("three cards were dealt in");
        seen.push(card);
    }
    seen.sort();
    assert_eq!(seen, vec![10, 20, 30]);
    assert_eq!(deck.cards(), 0);
    assert_eq!(deck.draw(&mut rng), None);
}

#[test]
fn draw_from_empty_deck_yields_nothing() {
    let mut rng = fastrand::Rng::with_seed(0);
    let mut deck = PlayerDeck::new(vec![]);
    assert_eq!(deck.draw(&mut rng), None);
    assert_eq!(deck.cards(), 0);
}

#[test]
fn draw_pops_the_top_of_the_draw_pile() {
    // Cards returned to the draw pile come back off it in order, with no
    // reshuffle while the pile is non-empty.
    let mut rng = fastrand::Rng::with_seed(1);
    let mut deck = PlayerDeck::new(vec![]);
    deck.return_card(5);
    deck.return_card(7);
    assert_eq!(deck.cards(), 2);
    assert_eq!(deck.draw(&mut rng), Some(7));
    assert_eq!(deck.draw(&mut rng), Some(5));
    assert_eq!(deck.draw(&mut rng), None);
}

#[test]
fn win_loot_appends_to_discard() {
    let mut rng = fastrand::Rng::with_seed(3);
    let mut deck = PlayerDeck::new(vec![]);
    deck.win_loot(&[4, 5]);
    assert_eq!(deck.cards(), 2);
    let first = deck.draw(&mut rng).expect("loot was added");
    assert!(first == 4 || first == 5);
    assert_eq!(deck.cards(), 1);
}

#[test]
fn reshuffle_recycles_won_cards() {
    let mut rng = fastrand::Rng::with_seed(11);
    let mut deck = PlayerDeck::new(vec![1]);
    assert_eq!(deck.draw(&mut rng), Some(1));
    deck.win_loot(&[8, 9]);
    let mut seen = vec![
        deck.draw(&mut rng).expect("two cards recycled"),
        deck.draw(&mut rng).expect("two cards recycled"),
    ];
    seen.sort();
    assert_eq!(seen, vec![8, 9]);
    assert_eq!(deck.draw(&mut rng), None);
}
