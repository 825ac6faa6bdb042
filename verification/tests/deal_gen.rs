//! Deal construction: partitions, strategies, and the master-hand detector.

use coinche_engine::cards::{CLUBS, DIAMONDS, HEARTS, SPADES};
use coinche_engine::deal::{
    generate_biased_hands, generate_hand_batch, generate_random_hands, is_force_capot,
    GenStrategy, HandBuilder,
};

fn assert_partition(hands: &[u32; 4]) {
    for i in 0..4 {
        assert_eq!(hands[i].count_ones(), 8);
        for j in 0..4 {
            if i != j {
                assert_eq!(hands[i] & hands[j], 0);
            }
        }
    }
    assert_eq!(hands[0] | hands[1] | hands[2] | hands[3], 0xFFFF_FFFF);
}

#[test]
fn test_random_hands_partition_deck() {
    for _ in 0..20 {
        let hands = generate_random_hands();
        assert_partition(&hands);
    }
}

#[test]
fn test_shuffle_varies_deals() {
    // An inert shuffle would always give South the same top-of-deck hand.
    let mut distinct = false;
    let first = generate_random_hands()[0];
    for _ in 0..20 {
        if generate_random_hands()[0] != first {
            distinct = true;
        }
    }
    assert!(distinct);
}

#[test]
fn test_force_capot_passes_detector() {
    for trump in 0..4u8 {
        for _ in 0..25 {
            let hands = generate_biased_hands(trump, GenStrategy::ForceCapot);
            assert_partition(&hands);
            assert!(is_force_capot(hands[0], trump));
        }
    }
}

#[test]
fn test_force_belote_places_pair() {
    for _ in 0..10 {
        let hands = generate_biased_hands(HEARTS, GenStrategy::ForceBelote);
        assert_partition(&hands);
        assert!(hands[0] & (1 << (HEARTS * 8 + 6)) != 0);
        assert!(hands[0] & (1 << (HEARTS * 8 + 5)) != 0);
    }
}

#[test]
fn test_force_shape_profiles_south() {
    let shape = [5u8, 2, 1, 0];
    for _ in 0..10 {
        let hands = generate_biased_hands(SPADES, GenStrategy::ForceShape(shape));
        assert_partition(&hands);
        let suits = [SPADES, HEARTS, CLUBS, DIAMONDS];
        for (i, &s) in suits.iter().enumerate() {
            let in_suit = (hands[0] >> (s * 8)) & 0xFF;
            assert_eq!(in_suit.count_ones(), shape[i] as u32);
        }
    }
}

#[test]
fn test_hand_builder_forces_cards() {
    let mut builder = HandBuilder::new(DIAMONDS);
    builder.force_card(DIAMONDS * 8 + 7);
    builder.force_card(CLUBS * 8 + 7);
    let hands = builder.build();
    assert_partition(&hands);
    assert!(hands[0] & (1 << (DIAMONDS * 8 + 7)) != 0);
    assert!(hands[0] & (1 << (CLUBS * 8 + 7)) != 0);
}

#[test]
fn test_detector_rejects_broken_prefixes() {
    // The trump run skips the 9: not a master hand.
    let hand = (1 << (HEARTS * 8 + 4)) | (1 << (HEARTS * 8 + 7)) | (1 << (HEARTS * 8 + 3))
        | (1 << (HEARTS * 8 + 6));
    assert!(!is_force_capot(hand, HEARTS));
    // Three trumps are too few even in perfect order.
    let short = (1 << (HEARTS * 8 + 4)) | (1 << (HEARTS * 8 + 2)) | (1 << (HEARTS * 8 + 7));
    assert!(!is_force_capot(short, HEARTS));
    // A side suit led by its 10 instead of its Ace breaks the hand.
    let bad_side = (1 << (HEARTS * 8 + 4)) | (1 << (HEARTS * 8 + 2)) | (1 << (HEARTS * 8 + 7))
        | (1 << (HEARTS * 8 + 3)) | (1 << (SPADES * 8 + 3));
    assert!(!is_force_capot(bad_side, HEARTS));
    // The full-prefix hand with a clean side Ace passes.
    let good = (1 << (HEARTS * 8 + 4)) | (1 << (HEARTS * 8 + 2)) | (1 << (HEARTS * 8 + 7))
        | (1 << (HEARTS * 8 + 3)) | (1 << (SPADES * 8 + 7));
    assert!(is_force_capot(good, HEARTS));
}

#[test]
fn test_hand_batch_shapes_and_tags() {
    let (hands, tags) = generate_hand_batch(40);
    assert_eq!(hands.len(), 160);
    assert_eq!(tags.len(), 40);
    for (i, &tag) in tags.iter().enumerate() {
        assert!(tag <= 3);
        let deal = [hands[4 * i], hands[4 * i + 1], hands[4 * i + 2], hands[4 * i + 3]];
        assert_partition(&deal);
        if tag == 1 {
            let mut some_trump = false;
            for t in 0..4 {
                if is_force_capot(deal[0], t) {
                    some_trump = true;
                }
            }
            assert!(some_trump);
        }
    }
}

#[test]
fn test_random_draws_in_range() {
    // The uniform draw honours its bound and actually varies.
    let mut seen = [false; 4];
    for _ in 0..100 {
        let v = coinche_engine::rng::random_below(4);
        assert!(v < 4);
        seen[v as usize] = true;
    }
    assert!(seen.iter().filter(|&&b| b).count() >= 2);
}
