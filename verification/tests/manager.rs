//! A whole round through the orchestrator: auction, play, verdict.

use coinche_engine::bidding::Bid;
use coinche_engine::cards::{HEARTS, SPADES};
use coinche_engine::matchplay::{CoincheMatch, Phase};

fn card(suit: u8, rank: u8) -> u8 {
    suit * 8 + rank
}

#[test]
fn test_full_match_flow() {
    // One-card hands for a one-trick round.
    let mut hands = [0u32; 4];
    hands[0] = 1 << card(SPADES, 0);
    hands[1] = 1 << card(SPADES, 1);
    hands[2] = 1 << card(HEARTS, 0);
    hands[3] = 1 << card(HEARTS, 1);

    let mut m = CoincheMatch::new_rs(0, hands);

    // Seat 1 bids 80 Spades; the other three pass.
    m.bid(Some(Bid::new(80, SPADES))).unwrap();
    m.bid(None).unwrap();
    m.bid(None).unwrap();
    m.bid(None).unwrap();

    match m.phase {
        Phase::Playing(ref g) => {
            assert_eq!(g.trump, SPADES);
            assert_eq!(g.current_player, 1);
        }
        _ => panic!("Should be in Playing phase"),
    }

    // Seat 1 leads the trump 8; 2 and 3 discard; seat 0 follows trump.
    m.play_card(card(SPADES, 1)).unwrap();
    m.play_card(card(HEARTS, 0)).unwrap();
    m.play_card(card(HEARTS, 1)).unwrap();
    m.play_card(card(SPADES, 0)).unwrap();

    match m.phase {
        Phase::Finished(res) => {
            assert!(res.contract.is_some());
            assert_eq!(res.points_ns, 0);
            // No card points fell; East-West take the 10-de-der.
            assert_eq!(res.points_ew, 10);
            assert_eq!(res.contract_made, false);
        }
        _ => panic!("Should be Finished"),
    }
}

#[test]
fn test_match_new_validation() {
    assert!(CoincheMatch::new(4, vec![1, 2, 4, 8]).is_err());
    assert!(CoincheMatch::new(0, vec![1, 2, 4]).is_err());
    // Overlapping hands are refused.
    assert!(CoincheMatch::new(0, vec![3, 2, 4, 8]).is_err());
    let m = CoincheMatch::new(0, vec![1, 2, 4, 8]).unwrap();
    assert_eq!(m.phase_name(), "BIDDING");
}

#[test]
fn test_play_card_rejects_illegal_moves() {
    let mut hands = [0u32; 4];
    hands[0] = 1 << card(SPADES, 0);
    hands[1] = 1 << card(SPADES, 1);
    hands[2] = 1 << card(HEARTS, 0);
    hands[3] = 1 << card(HEARTS, 1);
    let mut m = CoincheMatch::new_rs(0, hands);

    // No play during the auction.
    assert!(m.play_card(card(SPADES, 1)).is_err());

    m.bid(Some(Bid::new(80, SPADES))).unwrap();
    m.bid(None).unwrap();
    m.bid(None).unwrap();
    m.bid(None).unwrap();

    // A card the mover does not hold is refused; so is a non-card.
    assert!(m.play_card(card(HEARTS, 0)).is_err());
    assert!(m.play_card(200).is_err());
    assert!(m.play_card(card(SPADES, 1)).is_ok());

    // No bidding once play has begun.
    assert!(m.bid(None).is_err());
}

#[test]
fn test_all_pass_finishes_without_contract() {
    let mut hands = [0u32; 4];
    hands[0] = 1 << card(SPADES, 0);
    hands[1] = 1 << card(SPADES, 1);
    hands[2] = 1 << card(HEARTS, 0);
    hands[3] = 1 << card(HEARTS, 1);
    let mut m = CoincheMatch::new_rs(0, hands);
    m.bid(None).unwrap();
    m.bid(None).unwrap();
    m.bid(None).unwrap();
    m.bid(None).unwrap();
    let res = m.get_result().expect("auction of four passes must settle the match");
    assert!(res.contract.is_none());
    assert_eq!(res.points_ns, 0);
    assert_eq!(res.points_ew, 0);
}
