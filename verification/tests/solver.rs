//! End-to-end search scenarios and determinism.

use coinche_engine::cards::{CLUBS, HEARTS, SPADES};
use coinche_engine::playing::PlayingState;
use coinche_engine::solver::{solve, Solver};

fn card(suit: u8, rank: u8) -> u8 {
    suit * 8 + rank
}

#[test]
fn test_solve_last_trick() {
    let mut state = PlayingState::new(HEARTS);
    // South: the trump Ace; the others cannot beat it.
    state.hands[0] = 1 << card(HEARTS, 7);
    state.hands[1] = 1 << card(HEARTS, 0);
    state.hands[2] = 1 << card(HEARTS, 1);
    state.hands[3] = 1 << card(SPADES, 2);

    // Ace (11) plus the 10-de-der: 21.
    let (score, best_move) = solve(&state, 8, 16);

    assert_eq!(best_move, card(HEARTS, 7));
    assert_eq!(score, 21);
}

#[test]
fn test_solve_two_tricks_simple() {
    let mut state = PlayingState::new(HEARTS);
    state.hands[0] = (1 << card(HEARTS, 7)) | (1 << card(HEARTS, 6));
    state.hands[1] = (1 << card(HEARTS, 0)) | (1 << card(HEARTS, 1));
    state.hands[2] = (1 << card(SPADES, 0)) | (1 << card(SPADES, 1));
    state.hands[3] = (1 << card(SPADES, 2)) | (1 << card(SPADES, 3));

    // Trick one: A + 7 + 7 + 9 = 11.  Trick two: K + 8 + 8 + 10 = 14.
    // Plus the 10-de-der: 35.
    let (score, _) = solve(&state, 8, 16);
    assert_eq!(score, 35);
}

#[test]
fn test_capot_recognition() {
    let mut state = PlayingState::new(HEARTS);
    // Four tricks already won; South holds the four master trumps.
    state.tricks_won[0] = 4;

    state.hands[0] = (1 << card(HEARTS, 4))
        | (1 << card(HEARTS, 2))
        | (1 << card(HEARTS, 7))
        | (1 << card(HEARTS, 3));
    state.hands[1] = (1 << card(CLUBS, 0))
        | (1 << card(CLUBS, 1))
        | (1 << card(CLUBS, 2))
        | (1 << card(CLUBS, 3));
    state.hands[2] = (1 << card(CLUBS, 4))
        | (1 << card(CLUBS, 5))
        | (1 << card(CLUBS, 6))
        | (1 << card(CLUBS, 7));
    state.hands[3] = (1 << card(SPADES, 0))
        | (1 << card(SPADES, 1))
        | (1 << card(SPADES, 2))
        | (1 << card(SPADES, 3));

    // 55 trump points + 40 captured + 10 de-der + 90 Capot = 195.
    let (score, _) = solve(&state, 32, 16);
    assert_eq!(score, 195);
}

#[test]
fn test_solve_deterministic_fresh_tables() {
    let mut state = PlayingState::new(HEARTS);
    state.hands[0] = (1 << card(HEARTS, 7)) | (1 << card(SPADES, 5));
    state.hands[1] = (1 << card(HEARTS, 0)) | (1 << card(CLUBS, 3));
    state.hands[2] = (1 << card(HEARTS, 1)) | (1 << card(CLUBS, 4));
    state.hands[3] = (1 << card(SPADES, 2)) | (1 << card(CLUBS, 5));

    let first = solve(&state, 8, 16);
    let second = solve(&state, 8, 16);
    assert_eq!(first, second);
}

#[test]
fn test_solve_deterministic_warm_table() {
    let mut state = PlayingState::new(HEARTS);
    state.hands[0] = (1 << card(HEARTS, 7)) | (1 << card(SPADES, 5));
    state.hands[1] = (1 << card(HEARTS, 0)) | (1 << card(CLUBS, 3));
    state.hands[2] = (1 << card(HEARTS, 1)) | (1 << card(CLUBS, 4));
    state.hands[3] = (1 << card(SPADES, 2)) | (1 << card(CLUBS, 5));

    // The same worker solves the same position twice; the generation bump
    // makes the warmed table invisible to the second solve.
    let mut worker = Solver::new(16);
    assert!(worker.is_first_hand());
    let first = worker.solve(&state, 8);
    assert!(!worker.is_first_hand());
    let second = worker.solve(&state, 8);
    assert_eq!(first, second);
}

#[test]
fn test_zobrist_keys_fixed() {
    let a = coinche_engine::solver::ZobristTable::new();
    let b = coinche_engine::solver::ZobristTable::new();
    assert_eq!(a.keys, b.keys);
    assert_eq!(a.keys.len(), 262);
    assert!(a.keys.iter().any(|&k| k != 0));
}

#[test]
fn test_terminal_solve_has_no_move() {
    // With no cards to play the deepening loop never runs: the solver
    // reports no move and the neutral zero score.
    let mut state = PlayingState::new(HEARTS);
    state.points[0] = 97;
    state.points[1] = 65;
    let (score, mv) = solve(&state, 8, 12);
    assert_eq!(score, 0);
    assert_eq!(mv, 0xFF);
}
