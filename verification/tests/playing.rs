//! Play-state behaviour: scoring, Belote, Capot, and the legal-move rules.

use coinche_engine::cards::{CLUBS, DIAMONDS, HEARTS, SPADES};
use coinche_engine::playing::PlayingState;

fn card(suit: u8, rank: u8) -> u8 {
    suit * 8 + rank
}

fn c(suit: u8, rank: u8) -> u32 {
    1 << (suit * 8 + rank)
}

fn idx(suit: u8, rank: u8) -> u8 {
    suit * 8 + rank
}

#[test]
fn test_points_counting() {
    let mut state = PlayingState::new(HEARTS);

    // Trick: J, 9, A of trump plus the 10 of Spades: 20 + 14 + 11 + 10 = 55,
    // plus the 10-de-der since the hands run empty.
    state.hands[0] = 1 << card(HEARTS, 4);
    state.hands[1] = 1 << card(HEARTS, 2);
    state.hands[2] = 1 << card(HEARTS, 7);
    state.hands[3] = 1 << card(SPADES, 3);

    state.play_card(card(HEARTS, 4));
    state.play_card(card(HEARTS, 2));
    state.play_card(card(HEARTS, 7));
    state.play_card(card(SPADES, 3));

    assert_eq!(state.points[0], 65);
    assert_eq!(state.current_player, 0);
}

#[test]
fn test_belote_rebelote() {
    let mut state = PlayingState::new(HEARTS);
    state.hands[0] = (1 << card(HEARTS, 6)) | (1 << card(HEARTS, 5));

    state.play_card(card(HEARTS, 6));
    assert!(state.belote_scored[0]);
    assert_eq!(state.points[0], 20);

    state.play_card(card(CLUBS, 0));
    state.play_card(card(CLUBS, 1));
    state.play_card(card(CLUBS, 2));
}

#[test]
fn test_capot_bonus() {
    let mut state = PlayingState::new(HEARTS);
    state.tricks_won[0] = 7;

    state.hands[0] = 1 << card(HEARTS, 7);
    state.hands[1] = 1 << card(CLUBS, 0);
    state.hands[2] = 1 << card(CLUBS, 1);
    state.hands[3] = 1 << card(CLUBS, 2);

    state.play_card(card(HEARTS, 7));
    state.play_card(card(CLUBS, 0));
    state.play_card(card(CLUBS, 1));
    state.play_card(card(CLUBS, 2));

    assert_eq!(state.tricks_won[0], 8);
    assert!(state.points[0] >= 111);
}

#[test]
fn test_must_follow() {
    let mut state = PlayingState::new(HEARTS);
    state.trick_size = 1;
    state.trick_starter = 0;
    state.current_trick[0] = card(CLUBS, 7);
    state.current_player = 1;

    state.hands[1] = (1 << card(CLUBS, 0)) | (1 << card(HEARTS, 0));

    let legal = state.get_legal_moves();
    assert_eq!(legal, 1 << card(CLUBS, 0));
}

#[test]
fn test_must_cut() {
    let mut state = PlayingState::new(HEARTS);
    state.trick_size = 1;
    state.trick_starter = 0;
    state.current_trick[0] = card(CLUBS, 7);
    state.current_player = 1;

    state.hands[1] = (1 << card(SPADES, 0)) | (1 << card(HEARTS, 0));

    let legal = state.get_legal_moves();
    assert_eq!(legal, 1 << card(HEARTS, 0));
}

#[test]
fn test_must_overcut() {
    let mut state = PlayingState::new(HEARTS);
    state.trick_size = 2;
    state.trick_starter = 0;
    state.current_trick[0] = card(CLUBS, 7);
    state.current_trick[1] = card(HEARTS, 3);
    state.current_player = 2;

    state.hands[2] = (1 << card(HEARTS, 2)) | (1 << card(HEARTS, 5));

    let legal = state.get_legal_moves();
    assert_eq!(legal, 1 << card(HEARTS, 2));
}

#[test]
fn test_partner_master_no_cut() {
    let mut state = PlayingState::new(HEARTS);
    state.trick_size = 2;
    state.trick_starter = 0;
    state.current_trick[0] = card(CLUBS, 7);
    state.current_trick[1] = card(CLUBS, 0);
    state.current_player = 2;

    state.hands[2] = (1 << card(SPADES, 0)) | (1 << card(HEARTS, 0));

    let legal = state.get_legal_moves();
    assert_eq!(legal, state.hands[2]);
}

#[test]
fn test_lead_any_card() {
    let mut state = PlayingState::new(HEARTS);
    state.current_player = 0;

    state.hands[0] =
        c(HEARTS, 0) | c(HEARTS, 1) | c(SPADES, 0) | c(SPADES, 1) | c(CLUBS, 0) | c(CLUBS, 1);

    assert_eq!(state.trick_size, 0);

    let legal = state.get_legal_moves();

    assert_eq!(
        legal, state.hands[0],
        "Lead player receives full hand as legal moves"
    );
}

#[test]
fn test_must_follow_suit_full() {
    let mut state = PlayingState::new(HEARTS);

    state.current_player = 0;
    state.trick_starter = 0;
    state.hands[0] = c(SPADES, 0);
    state.play_card(idx(SPADES, 0));

    assert_eq!(state.current_player, 1);

    state.hands[1] = c(SPADES, 1) | c(HEARTS, 0) | c(CLUBS, 0);

    let legal = state.get_legal_moves();

    assert_eq!(legal, c(SPADES, 1));
}

#[test]
fn test_must_follow_multiple_choices_full() {
    let mut state = PlayingState::new(HEARTS);

    state.trick_starter = 0;
    state.current_player = 0;
    state.hands[0] = c(SPADES, 0);
    state.play_card(idx(SPADES, 0));

    state.hands[1] = c(SPADES, 1) | c(SPADES, 2) | c(CLUBS, 0);

    let legal = state.get_legal_moves();

    assert_eq!(legal, c(SPADES, 1) | c(SPADES, 2));
}

#[test]
fn test_must_cut_if_void_full() {
    let mut state = PlayingState::new(HEARTS);

    state.trick_starter = 0;
    state.current_player = 0;
    state.hands[0] = c(SPADES, 0);
    state.play_card(idx(SPADES, 0));

    state.hands[1] = c(HEARTS, 0) | c(CLUBS, 0);

    let legal = state.get_legal_moves();

    assert_eq!(legal, c(HEARTS, 0));
}

#[test]
fn test_play_any_if_void_and_no_trump_full() {
    let mut state = PlayingState::new(HEARTS);

    state.trick_starter = 0;
    state.current_player = 0;
    state.hands[0] = c(SPADES, 0);
    state.play_card(idx(SPADES, 0));

    state.hands[1] = c(CLUBS, 0) | c(DIAMONDS, 0);

    let legal = state.get_legal_moves();

    assert_eq!(legal, c(CLUBS, 0) | c(DIAMONDS, 0));
}

#[test]
fn test_overcut_mandatory_full() {
    let mut state = PlayingState::new(HEARTS);

    state.hands[0] = c(SPADES, 0);
    state.play_card(idx(SPADES, 0));

    state.hands[1] = c(HEARTS, 3);
    state.play_card(idx(HEARTS, 3));

    state.hands[2] = c(HEARTS, 2) | c(HEARTS, 0);

    let legal = state.get_legal_moves();

    assert_eq!(legal, c(HEARTS, 2));
}

#[test]
fn test_cut_if_cannot_overcut_full() {
    let mut state = PlayingState::new(HEARTS);

    state.hands[0] = c(SPADES, 0);
    state.play_card(idx(SPADES, 0));

    state.hands[1] = c(HEARTS, 3);
    state.play_card(idx(HEARTS, 3));

    state.hands[2] = c(HEARTS, 0) | c(HEARTS, 1) | c(CLUBS, 0);

    let legal = state.get_legal_moves();

    assert_eq!(legal, c(HEARTS, 0) | c(HEARTS, 1));
}

#[test]
fn test_trump_lead_must_go_higher_full() {
    let mut state = PlayingState::new(HEARTS);

    state.hands[0] = c(HEARTS, 3);
    state.play_card(idx(HEARTS, 3));

    state.hands[1] = c(HEARTS, 2) | c(HEARTS, 5);

    let legal = state.get_legal_moves();

    assert_eq!(legal, c(HEARTS, 2));
}

#[test]
fn test_trump_lead_play_any_trump_if_cannot_go_higher_full() {
    let mut state = PlayingState::new(HEARTS);

    state.hands[0] = c(HEARTS, 2);
    state.play_card(idx(HEARTS, 2));

    state.hands[1] = c(HEARTS, 3) | c(HEARTS, 5);

    let legal = state.get_legal_moves();

    assert_eq!(legal, c(HEARTS, 3) | c(HEARTS, 5));
}

#[test]
fn test_hand_accessors_and_validation() {
    let mut state = PlayingState::new(HEARTS);
    state.set_hand(0, c(HEARTS, 0) | c(SPADES, 0));
    assert_eq!(state.get_hand(0), c(HEARTS, 0) | c(SPADES, 0));
    // A seat out of range reads as empty and writes nowhere.
    assert_eq!(state.get_hand(9), 0);
    state.set_hand(9, 0xFFFF_FFFF);
    assert_eq!(state.get_hand(0), c(HEARTS, 0) | c(SPADES, 0));
    assert!(state.is_well_formed());
    // Overlapping hands fail validation.
    state.set_hand(1, c(HEARTS, 0));
    assert!(!state.is_well_formed());
}
