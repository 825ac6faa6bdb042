//! The bidding pre-filter: sure points of a single hand.

use coinche_engine::cards::{HEARTS, SPADES};
use coinche_engine::deal::evaluate_hand_potential;

fn card(suit: u8, rank: u8) -> u32 {
    1 << (suit * 8 + rank)
}

#[test]
fn test_hand_potential_strong() {
    // Jack + 9 of trump + a side Ace: 20 + 14 + 11 = 45.
    let trump = HEARTS;
    let mut hand = 0;
    hand |= card(HEARTS, 4);
    hand |= card(HEARTS, 2);
    hand |= card(SPADES, 7);

    let score = evaluate_hand_potential(hand, trump);
    assert!(score >= 45);
}

#[test]
fn test_hand_potential_weak() {
    // Small trumps and small side cards are worth nothing.
    let trump = HEARTS;
    let mut hand = 0;
    hand |= card(HEARTS, 0);
    hand |= card(HEARTS, 1);
    hand |= card(SPADES, 0);
    hand |= card(SPADES, 1);

    let score = evaluate_hand_potential(hand, trump);
    assert!(score < 40);
    assert_eq!(score, 0);
}

#[test]
fn test_hand_potential_belote() {
    // The trump King and Queen together are the 20-point Belote.
    let trump = HEARTS;
    let mut hand = 0;
    hand |= card(HEARTS, 6);
    hand |= card(HEARTS, 5);

    let score = evaluate_hand_potential(hand, trump);
    assert_eq!(score, 20);
}
