//! Auction rules: bid enumeration, beating, and the bidding state machine.

use coinche_engine::bidding::{beats, legal_bids, Bid, BiddingState};

#[test]
fn test_initial_legal_bids() {
    // No current bid: all bids are legal.
    let bids = legal_bids(None);
    // 9 values * 6 suits = 54 possible bids.
    assert_eq!(bids.len(), 54);
    // First bid is the lowest value and suit (80, Clubs).
    assert_eq!(bids[0], Bid::new(80, 0));
}

#[test]
fn test_higher_value_beats() {
    let cur = Some(Bid::new(100, 2));
    let higher = legal_bids(cur);
    for b in higher.iter() {
        assert!(b.value >= 100);
        if b.value == 100 {
            assert!(b.trump > 2);
        }
    }
    assert!(!higher.iter().any(|b| b.value == 100 && b.trump <= 2));
}

#[test]
fn test_same_value_higher_suit() {
    let cur = Some(Bid::new(120, 1));
    let bids = legal_bids(cur);
    assert!(bids.iter().any(|b| b.value == 120 && b.trump > 1));
    assert!(!bids.iter().any(|b| b.value == 120 && b.trump <= 1));
}

#[test]
fn test_beats_function() {
    let cur = Some(Bid::new(130, 3));
    assert!(beats(cur, Bid::new(140, 0)));
    assert!(!beats(cur, Bid::new(130, 2)));
    assert!(beats(cur, Bid::new(130, 4)));
}

#[test]
fn test_bidding_scenario() {
    // Dealer is 3, so seat 0 starts.
    let mut state = BiddingState::new(3);
    assert_eq!(state.current_player, 0);

    assert!(state.apply_bid(None).is_ok());
    assert_eq!(state.consecutive_passes, 1);
    assert_eq!(state.current_player, 1);

    let b1 = Bid::new(80, 2);
    assert!(state.apply_bid(Some(b1)).is_ok());
    assert_eq!(state.contract, Some(b1));
    assert_eq!(state.contract_owner, Some(1));
    assert_eq!(state.consecutive_passes, 0);

    assert!(state.apply_bid(None).is_ok());
    assert!(state.apply_bid(None).is_ok());

    // Not finished yet: only two passes since the bid.
    assert!(!state.is_finished());

    assert!(state.apply_bid(None).is_ok());

    assert!(state.is_finished());
    assert_eq!(state.contract.unwrap().value, 80);
}

#[test]
fn test_capot_bid_rejection() {
    let mut state = BiddingState::new(0);
    let b1 = Bid::new(100, 0);
    state.apply_bid(Some(b1)).unwrap();

    // A lower bid must be refused.
    let b2 = Bid::new(90, 0);
    assert!(state.apply_bid(Some(b2)).is_err());

    // The same value with the same suit must be refused too.
    let b3 = Bid::new(100, 0);
    assert!(state.apply_bid(Some(b3)).is_err());
}

#[test]
fn test_coinche_and_surcoinche_transitions() {
    let mut state = BiddingState::new(0);
    // Nothing to coinche yet.
    assert!(state.coinche().is_err());
    state.apply_bid(Some(Bid::new(90, 1))).unwrap();
    // Surcoinche before a coinche is refused.
    assert!(state.surcoinche().is_err());
    assert!(state.coinche().is_ok());
    assert_eq!(state.coinche_level, 1);
    // A bid after a coinche is refused; a pass is fine.
    assert!(state.apply_bid(Some(Bid::new(100, 1))).is_err());
    assert!(state.apply_bid(None).is_ok());
    assert!(state.surcoinche().is_ok());
    assert_eq!(state.coinche_level, 2);
    // A surcoinche ends the auction.
    assert!(state.is_finished());
}

#[test]
fn test_legal_bids_sorted_and_complete() {
    let cur = Some(Bid::new(150, 4));
    let bids = legal_bids(cur);
    // Only 150 All-Trump and the nine 160 bids minus... exactly: 150/5 and 160/0..=5.
    assert_eq!(bids.len(), 7);
    assert_eq!(bids[0], Bid::new(150, 5));
    for w in bids.windows(2) {
        assert!(w[0].value < w[1].value || (w[0].value == w[1].value && w[0].trump < w[1].trump));
    }
}
