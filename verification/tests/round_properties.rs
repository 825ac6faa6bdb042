//! Whole-round properties exercised on concrete play-outs.

use coinche_engine::cards::HEARTS;
use coinche_engine::deal::{generate_biased_hands, generate_random_hands, GenStrategy};
use coinche_engine::playing::PlayingState;
use coinche_engine::solver::solve;

fn fresh_state(hands: [u32; 4], trump: u8) -> PlayingState {
    let mut state = PlayingState::new(trump);
    state.hands = hands;
    state
}

fn lowest_card(mask: u32) -> u8 {
    mask.trailing_zeros() as u8
}

/// Play a full random deal to the end with the lowest legal card each
/// time, checking hand disjointness, the trick ledger, and the legal-move
/// set at every step.
#[test]
fn test_full_playout_invariants_and_score_conservation() {
    for round in 0..6u8 {
        let trump = round % 4;
        let hands = generate_random_hands();
        let mut state = fresh_state(hands, trump);
        let mut plays = 0;
        while !state.is_terminal() {
            // Hands stay pairwise disjoint.
            for i in 0..4 {
                for j in 0..4 {
                    if i != j {
                        assert_eq!(state.hands[i] & state.hands[j], 0);
                    }
                }
            }
            // The trick tallies count the completed tricks.
            let cards_left: u32 =
                state.hands.iter().map(|h| h.count_ones()).sum::<u32>() + state.trick_size as u32;
            assert_eq!(
                4 * (state.tricks_won[0] as u32 + state.tricks_won[1] as u32) + cards_left,
                32
            );
            // The mover always has a legal card, all from its own hand.
            let legal = state.get_legal_moves();
            assert!(legal != 0);
            assert_eq!(legal & state.hands[state.current_player as usize], legal);
            let card = lowest_card(legal);
            state.play_card(card);
            // The played card never reappears in a legal-move set.
            let next_legal = state.get_legal_moves();
            assert_eq!(next_legal & (1 << card), 0);
            plays += 1;
        }
        assert_eq!(plays, 32);
        // Score conservation at the end of the round.
        let belote_bonus = 20
            * (state.belote_scored[0] as i32 + state.belote_scored[1] as i32);
        let capot_bonus = if state.tricks_won[0] == 8 || state.tricks_won[1] == 8 {
            90
        } else {
            0
        };
        assert_eq!(
            state.points[0] as i32 + state.points[1] as i32,
            162 + belote_bonus + capot_bonus
        );
        assert_eq!(
            state.tricks_won[0] as u32 + state.tricks_won[1] as u32,
            8
        );
    }
}

/// Completing one trick credits exactly its card points.
#[test]
fn test_completed_trick_point_delta() {
    let mut state = PlayingState::new(HEARTS);
    // A: 11, K: 4 in trump; the spade 10: 10; the club 7: 0.  Total 25.
    state.hands[0] = 1 << (HEARTS * 8 + 7) | 1 << (0 * 8 + 0);
    state.hands[1] = 1 << (HEARTS * 8 + 6) | 1 << (0 * 8 + 1);
    state.hands[2] = 1 << (1 * 8 + 3) | 1 << (0 * 8 + 2);
    state.hands[3] = 1 << (3 * 8 + 0) | 1 << (0 * 8 + 3);
    let before = state.points[0] + state.points[1];
    state.play_card(HEARTS * 8 + 7);
    state.play_card(HEARTS * 8 + 6);
    state.play_card(1 * 8 + 3);
    state.play_card(3 * 8 + 0);
    let after = state.points[0] + state.points[1];
    // Not the last trick: no 10-de-der, no Capot, no Belote fell
    // (the King arrived without its Queen).
    assert_eq!(after - before, 25);
}

/// Every Force-Capot deal resolves to a Capot-grade score.  The first
/// four tricks are forced by hand — South cashes its master trumps — and
/// the solver settles the rest of the round exactly at the full depth
/// cap, so the reported total is the deal's Capot value.
#[test]
fn test_force_capot_deals_solve_to_capot_scores() {
    let trump_order = [4u8, 2, 7, 3, 6, 5, 1, 0];
    for k in 0..4u32 {
        let trump = coinche_engine::rng::random_below(4) as u8;
        let hands = generate_biased_hands(trump, GenStrategy::ForceCapot);
        let mut state = fresh_state(hands, trump);
        // South leads its strongest trump; nobody can take the trick.
        for _ in 0..4 {
            let legal = state.get_legal_moves();
            let mut lead = 0xFFu8;
            for &r in trump_order.iter() {
                let c = trump * 8 + r;
                if legal & (1 << c) != 0 {
                    lead = c;
                    break;
                }
            }
            assert!(lead < 32, "deal {}: South ran out of master trumps", k);
            state.play_card(lead);
            for _ in 0..3 {
                let reply = state.get_legal_moves().trailing_zeros() as u8;
                state.play_card(reply);
            }
            assert_eq!(state.current_player, 0, "deal {}: South lost a trick", k);
        }
        assert_eq!(state.tricks_won[0], 4);
        let (score, _mv) = solve(&state, 32, 18);
        assert!(
            score >= 250,
            "deal {} under trump {} solved to {}",
            k,
            trump,
            score
        );
    }
}

/// An empty batch is answered with an empty score table.
#[test]
fn test_solve_hand_batch_empty() {
    let flat: Vec<u32> = Vec::new();
    let scores = coinche_engine::deal::solve_hand_batch(&flat, 1, 14);
    assert!(scores.is_empty());
}

/// Mid-game snapshots round-trip through the batch solver.
#[test]
fn test_gameplay_batch_round_trip() {
    let (hands, boards, history, trumps, tricks, players) =
        coinche_engine::dataset::generate_raw_gameplay_batch(6);
    assert_eq!(hands.len(), 24);
    assert_eq!(history.len(), 6);
    let (cards, scores, valid) = coinche_engine::dataset::solve_gameplay_batch(
        &hands, &boards, &history, &trumps, &tricks, &players, 1,
    );
    assert_eq!(cards.len(), 6);
    assert_eq!(scores.len(), 6);
    assert_eq!(valid.len(), 6);
    for i in 0..6 {
        if valid[i] {
            assert!(cards[i] < 32);
        }
    }
}

/// A deliberately corrupted snapshot is flagged, not solved.
#[test]
fn test_gameplay_batch_flags_invalid_snapshot() {
    let hands = vec![3u32, 3, 0, 0];
    let boards = vec![Vec::new()];
    let history = vec![0u32];
    let trumps = vec![0u8];
    let tricks = vec![vec![0u8, 0u8]];
    let players = vec![0u8];
    let (_cards, _scores, valid) = coinche_engine::dataset::solve_gameplay_batch(
        &hands, &boards, &history, &trumps, &tricks, &players, 1,
    );
    assert_eq!(valid, vec![false]);
}
