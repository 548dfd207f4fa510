use rust_poker_env::cards::{draw, fresh_deck};
use rust_poker_env::{Card, HandRank, PokerEnv, PokerError};

#[test]
fn fresh_deck_has_52_cards_in_order() {
    let deck = fresh_deck();
    assert_eq!(deck.len(), 52);
    assert_eq!(deck[0], Card { rank: 0, suit: 0 });
    assert_eq!(deck[5], Card { rank: 1, suit: 1 });
    assert_eq!(deck[51], Card { rank: 12, suit: 3 });
    for i in 0..52 {
        for j in (i + 1)..52 {
            assert_ne!(deck[i], deck[j]);
        }
    }
}

#[test]
fn shuffled_hand_holds_every_card_once() {
    let env = PokerEnv::new(2, 1, 2, 100).unwrap();
    let mut seen: Vec<Card> = env.deck().clone();
    for hole in env.player_cards() {
        seen.push(hole.0);
        seen.push(hole.1);
    }
    assert_eq!(seen.len(), 52);
    for card in fresh_deck() {
        assert_eq!(seen.iter().filter(|c| **c == card).count(), 1);
    }
}

#[test]
fn shuffle_changes_the_order() {
    let env = PokerEnv::new(2, 1, 2, 100).unwrap();
    let fresh = fresh_deck();
    let untouched = env.deck()[..] == fresh[..48]
        && env.player_cards()[0] == (fresh[51], fresh[50])
        && env.player_cards()[1] == (fresh[49], fresh[48]);
    assert!(!untouched);
}

#[test]
fn strength_orders_class_before_value() {
    assert!(HandRank::OnePair(0).beats(&HandRank::HighCard(u32::MAX)));
    assert!(HandRank::StraightFlush(0).beats(&HandRank::FourOfAKind(77)));
    assert!(HandRank::Flush(9).beats(&HandRank::Flush(8)));
    assert!(!HandRank::Flush(8).beats(&HandRank::Flush(8)));
    assert!(!HandRank::Straight(3).beats(&HandRank::Flush(1)));
    assert_eq!(HandRank::HighCard(5).strength_key(), 5);
    assert_eq!(HandRank::OnePair(5).strength_key(), 4294967296 + 5);
    assert_eq!(HandRank::StraightFlush(9).strength_key(), 8 * 4294967296 + 9);
}

#[test]
fn draw_deals_from_the_top() {
    let mut deck = fresh_deck();
    let cards = draw(&mut deck, 3).unwrap();
    assert_eq!(
        cards,
        vec![
            Card { rank: 12, suit: 3 },
            Card { rank: 12, suit: 2 },
            Card { rank: 12, suit: 1 }
        ]
    );
    assert_eq!(deck.len(), 49);
    assert_eq!(deck[48], Card { rank: 12, suit: 0 });
    assert_eq!(draw(&mut deck, 0), Ok(vec![]));
    assert_eq!(deck.len(), 49);
}

#[test]
fn draw_beyond_the_deck_fails_and_leaves_it() {
    let mut deck = vec![Card { rank: 3, suit: 1 }, Card { rank: 4, suit: 2 }];
    assert_eq!(draw(&mut deck, 3), Err(PokerError::DeckExhausted));
    assert_eq!(deck.len(), 2);
    assert_eq!(draw(&mut deck, 2).unwrap().len(), 2);
    assert_eq!(draw(&mut deck, 1), Err(PokerError::DeckExhausted));
}

#[test]
fn card_letters() {
    assert_eq!(Card { rank: 0, suit: 0 }.rank_char(), '2');
    assert_eq!(Card { rank: 7, suit: 0 }.rank_char(), '9');
    assert_eq!(Card { rank: 8, suit: 0 }.rank_char(), 'T');
    assert_eq!(Card { rank: 9, suit: 0 }.rank_char(), 'J');
    assert_eq!(Card { rank: 10, suit: 0 }.rank_char(), 'Q');
    assert_eq!(Card { rank: 11, suit: 0 }.rank_char(), 'K');
    assert_eq!(Card { rank: 12, suit: 0 }.rank_char(), 'A');
    assert_eq!(Card { rank: 0, suit: 0 }.suit_char(), 's');
    assert_eq!(Card { rank: 0, suit: 1 }.suit_char(), 'c');
    assert_eq!(Card { rank: 0, suit: 2 }.suit_char(), 'h');
    assert_eq!(Card { rank: 0, suit: 3 }.suit_char(), 'd');
}

#[test]
fn new_shuffled_deck_is_a_full_deck() {
    let deck = rust_poker_env::cards::new_shuffled();
    assert_eq!(deck.len(), 52);
    for card in fresh_deck() {
        assert_eq!(deck.iter().filter(|c| **c == card).count(), 1);
    }
}
