//! Biased deal construction and batch evaluation.
//!
//! Deals are built from shuffled decks and uniform draws; every builder is
//! verified for every outcome the randomness can produce: the four hands
//! always partition the 32-card deck, eight cards each, and the
//! Force-Capot builder always emits a hand the master-hand detector
//! accepts.

use vstd::prelude::*;

use crate::cards::{
    has_card, holds, lemma_bit_and, lemma_bit_or, lemma_bit_single, lemma_no_card_zero,
    lemma_suit_mask_bit, rank_of, suit_of, FULL_DECK, RANK_9, RANK_A, RANK_J, RANK_K, RANK_Q,
};
use crate::playing::{
    count_upto, hand_size, lemma_count_bounds, lemma_mask_extensional, lemma_union_split,
    lemma_zero_count, wf, PlayingState,
};
use crate::rng::{random_below, shuffle_cards};
use vstd::multiset::Multiset;

verus! {

broadcast use vstd::seq_lib::group_to_multiset_ensures;

/// How many of the four hands hold card `c`.
pub open spec fn held_count(hands: [u32; 4], c: u8) -> int {
    (if has_card(hands[0], c) {
        1int
    } else {
        0
    }) + (if has_card(hands[1], c) {
        1int
    } else {
        0
    }) + (if has_card(hands[2], c) {
        1int
    } else {
        0
    }) + (if has_card(hands[3], c) {
        1int
    } else {
        0
    })
}

/// The deck and the hands together hold each of the 32 cards exactly once,
/// and nothing else.
pub open spec fn deck_inv(deck: Seq<u8>, hands: [u32; 4]) -> bool {
    forall|c: u8|
        #![trigger deck.to_multiset().count(c)]
        if c < 32 {
            deck.to_multiset().count(c) + held_count(hands, c) == 1
        } else {
            deck.to_multiset().count(c) == 0
        }
}

/// The four hands are pairwise disjoint and cover the full deck.
pub open spec fn deal_wf(hands: [u32; 4]) -> bool {
    &&& (forall|i: int, j: int|
        0 <= i < 4 && 0 <= j < 4 && i != j ==> #[trigger] hands[i] & #[trigger] hands[j] == 0)
    &&& hands[0] | hands[1] | hands[2] | hands[3] == FULL_DECK
}

/// Dropping the last element of a sequence removes one occurrence of it
/// from the multiset.
proof fn lemma_drop_last_multiset(s: Seq<u8>)
    requires
        s.len() > 0,
    ensures
        s.drop_last().to_multiset() == s.to_multiset().remove(s.last()),
{
    assert(s.drop_last() =~= s.remove(s.len() - 1));
    assert(s.remove(s.len() - 1).to_multiset() =~= s.to_multiset().remove(s[s.len() - 1]));
    assert(s.drop_last().to_multiset() =~= s.to_multiset().remove(s.last()));
}

/// Adding a fresh card to a hand grows its size by one.
proof fn lemma_count_upto_set(h: u32, c: u8, n: int)
    requires
        c < 32,
        n <= 32,
        !has_card(h, c),
    ensures
        count_upto(h | (1u32 << (c as u32)), n) == count_upto(h, n) + if (c as int) < n {
            1int
        } else {
            0
        },
    decreases n,
{
    if n > 0 {
        lemma_count_upto_set(h, c, n - 1);
        let j = (n - 1) as u8;
        lemma_bit_or(h, 1u32 << (c as u32), j);
        lemma_bit_single(c, j);
    }
}

/// The cards of 0..32 that `mask` does not hold, in ascending order.
fn full_deck_minus(mask: u32) -> (deck: Vec<u8>)
    ensures
        forall|c: u8|
            #![trigger deck@.to_multiset().count(c)]
            deck@.to_multiset().count(c) == if c < 32 && !has_card(mask, c) {
                1int
            } else {
                0
            },
        deck@.len() == 32 - hand_size(mask),
        deck@.len() <= 32,
{
    proof {
        lemma_count_bounds(mask, 32);
    }
    let mut deck: Vec<u8> = Vec::new();
    let mut c: u8 = 0;
    while c < 32
        invariant
            c <= 32,
            forall|x: u8|
                #![trigger deck@.to_multiset().count(x)]
                deck@.to_multiset().count(x) == if x < c && !has_card(mask, x) {
                    1int
                } else {
                    0
                },
            deck@.len() == c - count_upto(mask, c as int),
        decreases 32 - c,
    {
        proof {
            lemma_count_bounds(mask, c as int);
        }
        let ghost before = deck@;
        if !holds(mask, c) {
            deck.push(c);
            proof {
                assert(deck@.to_multiset() =~= before.to_multiset().insert(c));
            }
        }
        c = c + 1;
    }
    deck
}

/// Deal `n` cards off the top of the deck into a fresh hand bitboard.
fn deal_cards(deck: &mut Vec<u8>, n: u8) -> (h: u32)
    requires
        old(deck)@.len() >= n,
        forall|c: u8| #![trigger old(deck)@.to_multiset().count(c)] old(deck)@.to_multiset().count(c) <= 1,
        forall|c: u8|
            c >= 32 ==> #[trigger] old(deck)@.to_multiset().count(c) == 0,
    ensures
        hand_size(h) == n,
        final(deck)@.len() == old(deck)@.len() - n,
        forall|c: u8|
            #![trigger final(deck)@.to_multiset().count(c)]
            final(deck)@.to_multiset().count(c) == old(deck)@.to_multiset().count(c) - (
            if has_card(h, c) && c < 32 {
                1int
            } else {
                0
            }),
        forall|c: u8|
            c < 32 && #[trigger] has_card(h, c) ==> old(deck)@.to_multiset().count(c) == 1,
{
    let mut h: u32 = 0;
    proof {
        lemma_zero_count(32);
        crate::cards::lemma_zero_board();
    }
    let mut k: u8 = 0;
    while k < n
        invariant
            k <= n,
            old(deck)@.len() >= n,
            forall|c: u8|
                #![trigger old(deck)@.to_multiset().count(c)]
                old(deck)@.to_multiset().count(c) <= 1,
            forall|c: u8| c >= 32 ==> #[trigger] old(deck)@.to_multiset().count(c) == 0,
            deck@.len() == old(deck)@.len() - k,
            hand_size(h) == k,
            forall|c: u8|
                #![trigger deck@.to_multiset().count(c)]
                deck@.to_multiset().count(c) == old(deck)@.to_multiset().count(c) - (
                if has_card(h, c) && c < 32 {
                    1int
                } else {
                    0
                }),
            forall|c: u8|
                c < 32 && #[trigger] has_card(h, c) ==> old(deck)@.to_multiset().count(c) == 1,
        decreases n - k,
    {
        let ghost before = deck@;
        let c = deck.pop().unwrap();
        proof {
            assert(before.to_multiset().count(c) >= 1) by {
                assert(before[before.len() - 1] == c);
                assert(before.contains(c));
            }
            lemma_drop_last_multiset(before);
            assert(c < 32);
            assert(!has_card(h, c));
            lemma_count_upto_set(h, c, 32);
            assert forall|x: u8| x < 32 implies (#[trigger] has_card(
                h | (1u32 << (c as u32)),
                x,
            ) <==> has_card(h, x) || x == c) by {
                lemma_bit_or(h, 1u32 << (c as u32), x);
                lemma_bit_single(c, x);
            }
        }
        h = h | (1u32 << (c as u32));
        k = k + 1;
    }
    h
}

/// Shuffle the whole deck and deal eight cards to each of the four seats.
pub fn generate_random_hands() -> (hands: [u32; 4])
    ensures
        deal_wf(hands),
        forall|i: int| 0 <= i < 4 ==> hand_size(#[trigger] hands[i]) == 8,
{
    let mut deck = full_deck_minus(0);
    proof {
        lemma_zero_count(32);
        crate::cards::lemma_zero_board();
        assert(deck@.len() == 32);
    }
    shuffle_cards(&mut deck);
    let h0 = deal_cards(&mut deck, 8);
    let h1 = deal_cards(&mut deck, 8);
    let h2 = deal_cards(&mut deck, 8);
    let h3 = deal_cards(&mut deck, 8);
    let hands = [h0, h1, h2, h3];
    proof {
        lemma_deal_from_counts(deck@, hands);
    }
    hands
}

/// The `i`-th strongest card of the trump suit: J, 9, A, 10, K, Q, 8, 7.
fn trump_ordered_card(trump: u8, i: u8) -> (c: u8)
    requires
        trump < 4,
        i < 8,
    ensures
        c == trump * 8 + crate::solver::trump_rank_order(i as int),
        c < 32,
        suit_of(c) == trump,
        rank_of(c) == crate::solver::trump_rank_order(i as int),
{
    let r: u8 = match i {
        0 => 4,
        1 => 2,
        2 => 7,
        3 => 3,
        4 => 6,
        5 => 5,
        6 => 1,
        _ => 0,
    };
    trump * 8 + r
}

/// The `i`-th strongest card of plain suit `s`: A, 10, K, Q, J, 9, 8, 7.
fn plain_ordered_card(s: u8, i: u8) -> (c: u8)
    requires
        s < 4,
        i < 8,
    ensures
        c == s * 8 + crate::solver::plain_rank_order(i as int),
        c < 32,
        suit_of(c) == s,
        rank_of(c) == crate::solver::plain_rank_order(i as int),
{
    let r: u8 = match i {
        0 => 7,
        1 => 3,
        2 => 6,
        3 => 5,
        4 => 4,
        5 => 2,
        6 => 1,
        _ => 0,
    };
    s * 8 + r
}

/// The hand's trump cards are exactly the `n` strongest trumps.
pub open spec fn trump_prefix(hand: u32, trump: u8, n: int) -> bool {
    forall|i: int|
        0 <= i < 8 ==> (#[trigger] has_card(
            hand,
            (trump * 8 + crate::solver::trump_rank_order(i)) as u8,
        ) <==> i < n)
}

/// The hand's cards of plain suit `s` are exactly the `k` strongest.
pub open spec fn plain_prefix(hand: u32, s: u8, k: int) -> bool {
    forall|i: int|
        0 <= i < 8 ==> (#[trigger] has_card(
            hand,
            (s * 8 + crate::solver::plain_rank_order(i)) as u8,
        ) <==> i < k)
}

/// A guaranteed-Capot hand: at least four trumps forming a strict prefix
/// of the trump order from the Jack down, and every plain suit a strict
/// prefix of its order from the Ace down.
pub open spec fn plain_suit_solid(hand: u32, s: u8) -> bool {
    exists|k: int| 0 <= k <= 8 && #[trigger] plain_prefix(hand, s, k)
}

pub open spec fn master_hand(hand: u32, trump: u8) -> bool {
    &&& exists|n: int| 4 <= n <= 8 && #[trigger] trump_prefix(hand, trump, n)
    &&& forall|s: u8| s < 4 && s != trump ==> #[trigger] plain_suit_solid(hand, s)
}

/// Does the hand's trump holding form a prefix of the trump order of
/// length at least `min_len`?  Returns the prefix length when it does.
fn check_trump_prefix(hand: u32, trump: u8) -> (r: (bool, u8))
    requires
        trump < 4,
    ensures
        r.0 <==> exists|n: int| 4 <= n <= 8 && #[trigger] trump_prefix(hand, trump, n),
        r.0 ==> 4 <= r.1 <= 8 && trump_prefix(hand, trump, r.1 as int),
{
    let mut i: u8 = 0;
    while i < 8 && holds(hand, trump_ordered_card(trump, i))
        invariant
            trump < 4,
            i <= 8,
            forall|j: int|
                0 <= j < i ==> #[trigger] has_card(
                    hand,
                    (trump * 8 + crate::solver::trump_rank_order(j)) as u8,
                ),
        decreases 8 - i,
    {
        i = i + 1;
    }
    let n = i;
    let mut ok = n >= 4;
    let mut j: u8 = n;
    while j < 8
        invariant
            trump < 4,
            n <= j <= 8,
            n < 8 ==> !has_card(hand, (trump * 8 + crate::solver::trump_rank_order(n as int)) as u8),
            forall|x: int|
                0 <= x < n ==> #[trigger] has_card(
                    hand,
                    (trump * 8 + crate::solver::trump_rank_order(x)) as u8,
                ),
            ok ==> n >= 4,
            ok ==> (forall|x: int|
                n <= x < j ==> !(#[trigger] has_card(
                    hand,
                    (trump * 8 + crate::solver::trump_rank_order(x)) as u8,
                ))),
            !ok ==> n < 4 || (exists|x: int|
                n <= x < j && #[trigger] has_card(
                    hand,
                    (trump * 8 + crate::solver::trump_rank_order(x)) as u8,
                )),
        decreases 8 - j,
    {
        if holds(hand, trump_ordered_card(trump, j)) {
            proof {
                assert(has_card(hand, (trump * 8 + crate::solver::trump_rank_order(j as int)) as u8));
            }
            ok = false;
        }
        j = j + 1;
    }
    proof {
        if ok {
            assert(trump_prefix(hand, trump, n as int));
        } else {
            if exists|m: int| 4 <= m <= 8 && #[trigger] trump_prefix(hand, trump, m) {
                let m = choose|m: int| 4 <= m <= 8 && #[trigger] trump_prefix(hand, trump, m);
                if n < 4 {
                    // The scan stopped at a missing card inside any
                    // four-long prefix.
                    assert(has_card(
                        hand,
                        (trump * 8 + crate::solver::trump_rank_order(n as int)) as u8,
                    ));
                    assert(false);
                } else {
                    // A held card sits past the first gap, which no prefix
                    // length can explain.
                    let w = choose|x: int|
                        n <= x < 8 && #[trigger] has_card(
                            hand,
                            (trump * 8 + crate::solver::trump_rank_order(x)) as u8,
                        );
                    assert(w < m);
                    assert(n < 8);
                    assert(!has_card(
                        hand,
                        (trump * 8 + crate::solver::trump_rank_order(n as int)) as u8,
                    ));
                    assert(n >= m);
                    assert(false);
                }
            }
        }
    }
    (ok, n)
}

/// Does the hand's holding in plain suit `s` form a prefix of the plain
/// order?
fn check_plain_prefix(hand: u32, s: u8) -> (r: bool)
    requires
        s < 4,
    ensures
        r == plain_suit_solid(hand, s),
{
    let mut i: u8 = 0;
    while i < 8 && holds(hand, plain_ordered_card(s, i))
        invariant
            s < 4,
            i <= 8,
            forall|j: int|
                0 <= j < i ==> #[trigger] has_card(
                    hand,
                    (s * 8 + crate::solver::plain_rank_order(j)) as u8,
                ),
        decreases 8 - i,
    {
        i = i + 1;
    }
    let k = i;
    let mut ok = true;
    let mut j: u8 = k;
    while j < 8
        invariant
            s < 4,
            k <= j <= 8,
            k < 8 ==> !has_card(hand, (s * 8 + crate::solver::plain_rank_order(k as int)) as u8),
            forall|x: int|
                0 <= x < k ==> #[trigger] has_card(
                    hand,
                    (s * 8 + crate::solver::plain_rank_order(x)) as u8,
                ),
            ok ==> (forall|x: int|
                k <= x < j ==> !(#[trigger] has_card(
                    hand,
                    (s * 8 + crate::solver::plain_rank_order(x)) as u8,
                ))),
            !ok ==> (exists|x: int|
                k <= x < j && #[trigger] has_card(
                    hand,
                    (s * 8 + crate::solver::plain_rank_order(x)) as u8,
                )),
        decreases 8 - j,
    {
        if holds(hand, plain_ordered_card(s, j)) {
            proof {
                assert(has_card(hand, (s * 8 + crate::solver::plain_rank_order(j as int)) as u8));
            }
            ok = false;
        }
        j = j + 1;
    }
    proof {
        if ok {
            assert(plain_prefix(hand, s, k as int));
        } else {
            if exists|m: int| 0 <= m <= 8 && #[trigger] plain_prefix(hand, s, m) {
                let m = choose|m: int| 0 <= m <= 8 && #[trigger] plain_prefix(hand, s, m);
                let w = choose|x: int|
                    k <= x < 8 && #[trigger] has_card(
                        hand,
                        (s * 8 + crate::solver::plain_rank_order(x)) as u8,
                    );
                assert(w < m);
                assert(k < 8);
                assert(!has_card(hand, (s * 8 + crate::solver::plain_rank_order(k as int)) as u8));
                assert(k >= m);
                assert(false);
            }
        }
    }
    ok
}

/// Classify a hand as a guaranteed Capot: a solid trump prefix of length
/// at least four and solid tops in every plain suit.
pub fn is_force_capot(hand: u32, trump: u8) -> (b: bool)
    requires
        trump < 4,
    ensures
        b == master_hand(hand, trump),
{
    let (trump_ok, _n) = check_trump_prefix(hand, trump);
    if !trump_ok {
        proof {
            assert(!master_hand(hand, trump));
        }
        return false;
    }
    let mut s: u8 = 0;
    let mut all_ok = true;
    while s < 4
        invariant
            trump < 4,
            s <= 4,
            all_ok ==> (forall|x: u8| x < s && x != trump ==> #[trigger] plain_suit_solid(hand, x)),
            !all_ok ==> !master_hand(hand, trump),
            exists|n: int| 4 <= n <= 8 && #[trigger] trump_prefix(hand, trump, n),
        decreases 4 - s,
    {
        if s != trump {
            if !check_plain_prefix(hand, s) {
                all_ok = false;
            }
        }
        s = s + 1;
    }
    all_ok
}

/// Fill the three seats other than South from a deck that already lacks
/// exactly South's cards.
fn deal_remainder(h0: u32) -> (hands: [u32; 4])
    requires
        hand_size(h0) == 8,
    ensures
        deal_wf(hands),
        hands[0] == h0,
        forall|i: int| 0 <= i < 4 ==> hand_size(#[trigger] hands[i]) == 8,
{
    let mut deck = full_deck_minus(h0);
    shuffle_cards(&mut deck);
    let h1 = deal_cards(&mut deck, 8);
    let h2 = deal_cards(&mut deck, 8);
    let h3 = deal_cards(&mut deck, 8);
    let hands = [h0, h1, h2, h3];
    proof {
        lemma_deal_from_counts(deck@, hands);
    }
    hands
}

/// Adding a card of another suit leaves a solid plain suit solid.
proof fn lemma_solid_grow(h: u32, c: u8, x: u8)
    requires
        c < 32,
        x < 4,
        suit_of(c) != x,
        plain_suit_solid(h, x),
    ensures
        plain_suit_solid(h | (1u32 << (c as u32)), x),
{
    let kk = choose|kk: int| 0 <= kk <= 8 && #[trigger] plain_prefix(h, x, kk);
    assert forall|ii: int|
        0 <= ii < 8 implies (#[trigger] has_card(
        h | (1u32 << (c as u32)),
        (x * 8 + crate::solver::plain_rank_order(ii)) as u8,
    ) <==> ii < kk) by {
        let card = (x * 8 + crate::solver::plain_rank_order(ii)) as u8;
        assert(crate::solver::plain_rank_order(ii) < 8);
        assert(suit_of(card) == x);
        lemma_bit_or(h, 1u32 << (c as u32), card);
        lemma_bit_single(c, card);
    }
    assert(plain_prefix(h | (1u32 << (c as u32)), x, kk));
}

/// Adding a card outside the trump suit leaves the trump prefix intact.
proof fn lemma_trump_prefix_grow(h: u32, c: u8, trump: u8, n: int)
    requires
        c < 32,
        trump < 4,
        suit_of(c) != trump,
        trump_prefix(h, trump, n),
    ensures
        trump_prefix(h | (1u32 << (c as u32)), trump, n),
{
    assert forall|ii: int|
        0 <= ii < 8 implies (#[trigger] has_card(
        h | (1u32 << (c as u32)),
        (trump * 8 + crate::solver::trump_rank_order(ii)) as u8,
    ) <==> ii < n) by {
        let card = (trump * 8 + crate::solver::trump_rank_order(ii)) as u8;
        assert(crate::solver::trump_rank_order(ii) < 8);
        assert(suit_of(card) == trump);
        lemma_bit_or(h, 1u32 << (c as u32), card);
        lemma_bit_single(c, card);
    }
}

/// Build the guaranteed-Capot hand of the spec: `n` in 4..=8 top trumps
/// and, for each side suit that receives cards, its strongest cards.
fn build_capot_hand(trump: u8) -> (h0: u32)
    requires
        trump < 4,
    ensures
        hand_size(h0) == 8,
        master_hand(h0, trump),
{
    let n: u8 = 4 + random_below(5) as u8;
    let mut h: u32 = 0;
    proof {
        lemma_zero_count(32);
        crate::cards::lemma_zero_board();
    }
    // Top-n trumps in strength order.
    let mut i: u8 = 0;
    while i < n
        invariant
            trump < 4,
            4 <= n <= 8,
            i <= n,
            hand_size(h) == i,
            forall|x: int|
                0 <= x < 8 ==> (#[trigger] has_card(
                    h,
                    (trump * 8 + crate::solver::trump_rank_order(x)) as u8,
                ) <==> x < i),
            forall|c: u8| c < 32 && #[trigger] has_card(h, c) ==> suit_of(c) == trump,
        decreases n - i,
    {
        let c = trump_ordered_card(trump, i);
        proof {
            assert(!has_card(h, (trump * 8 + crate::solver::trump_rank_order(i as int)) as u8));
            assert(c == (trump * 8 + crate::solver::trump_rank_order(i as int)) as u8);
            assert(!has_card(h, c));
            lemma_count_upto_set(h, c, 32);
            assert forall|x: u8| x < 32 implies (#[trigger] has_card(h | (1u32 << (c as u32)), x)
                <==> has_card(h, x) || x == c) by {
                lemma_bit_or(h, 1u32 << (c as u32), x);
                lemma_bit_single(c, x);
            }
        }
        h = h | (1u32 << (c as u32));
        i = i + 1;
        proof {
            assert forall|x: int|
                0 <= x < 8 implies (#[trigger] has_card(
                h,
                (trump * 8 + crate::solver::trump_rank_order(x)) as u8,
            ) <==> x < i) by {
                if x != i - 1 {
                    assert(crate::solver::trump_rank_order(x)
                        != crate::solver::trump_rank_order(i - 1));
                }
            }
        }
    }
    proof {
        assert(trump_prefix(h, trump, n as int));
    }

    // Spread the remaining cards over the three side suits uniformly.
    let mut counts: [u8; 3] = [0, 0, 0];
    let mut left: u8 = 8 - n;
    while left > 0
        invariant
            counts[0] + counts[1] + counts[2] + left == 8 - n,
            n >= 4,
        decreases left,
    {
        let pick = random_below(3) as usize;
        counts[pick] = counts[pick] + 1;
        left = left - 1;
    }

    // The strongest cards of each side suit, prefix-wise.
    let ghost h_trumps = h;
    let mut sidx: u8 = 0;
    let mut s: u8 = 0;
    while s < 4
        invariant
            trump < 4,
            s <= 4,
            sidx == if s <= trump {
                s as int
            } else {
                s - 1
            },
            counts[0] + counts[1] + counts[2] == 8 - n,
            4 <= n <= 8,
            hand_size(h) == n + spent_counts(counts@, sidx as int),
            trump_prefix(h, trump, n as int),
            forall|x: u8| x < s && x != trump ==> #[trigger] plain_suit_solid(h, x),
            forall|c: u8|
                c < 32 && #[trigger] has_card(h, c) ==> (suit_of(c) == trump || (suit_of(c) < s
                    && suit_of(c) != trump)),
        decreases 4 - s,
    {
        if s != trump {
            let k = counts[sidx as usize];
            let ghost h_before = h;
            let mut j: u8 = 0;
            while j < k
                invariant
                    trump < 4,
                    s < 4,
                    s != trump,
                    j <= k,
                    k <= 8,
                    hand_size(h) == hand_size(h_before) + j,
                    forall|x: int|
                        0 <= x < 8 ==> (#[trigger] has_card(
                            h,
                            (s * 8 + crate::solver::plain_rank_order(x)) as u8,
                        ) <==> x < j),
                    forall|c: u8|
                        c < 32 && #[trigger] has_card(h, c) ==> (has_card(h_before, c) || (suit_of(
                            c,
                        ) == s && rank_of(c) != 0xFF)),
                    forall|c: u8|
                        c < 32 && #[trigger] has_card(h_before, c) ==> has_card(h, c),
                    forall|c: u8|
                        c < 32 && #[trigger] has_card(h_before, c) ==> suit_of(c) != s,
                    trump_prefix(h, trump, n as int),
                    forall|x: u8| x < s && x != trump ==> #[trigger] plain_suit_solid(h, x),
                decreases k - j,
            {
                let c = plain_ordered_card(s, j);
                let ghost h_old = h;
                proof {
                    assert(!has_card(h, (s * 8 + crate::solver::plain_rank_order(j as int)) as u8));
                    assert(c == (s * 8 + crate::solver::plain_rank_order(j as int)) as u8);
                    assert(!has_card(h, c));
                    lemma_count_upto_set(h, c, 32);
                    assert forall|x: u8| x < 32 implies (#[trigger] has_card(
                        h | (1u32 << (c as u32)),
                        x,
                    ) <==> has_card(h, x) || x == c) by {
                        lemma_bit_or(h, 1u32 << (c as u32), x);
                        lemma_bit_single(c, x);
                    }
                }
                h = h | (1u32 << (c as u32));
                j = j + 1;
                proof {
                    lemma_trump_prefix_grow(h_old, c, trump, n as int);
                    assert forall|x: u8|
                        x < s && x != trump implies #[trigger] plain_suit_solid(h, x) by {
                        assert(plain_suit_solid(h_old, x));
                        lemma_solid_grow(h_old, c, x);
                    }
                }
                proof {
                    assert forall|x: int|
                        0 <= x < 8 implies (#[trigger] has_card(
                        h,
                        (s * 8 + crate::solver::plain_rank_order(x)) as u8,
                    ) <==> x < j) by {
                        if x != j - 1 {
                            assert(crate::solver::plain_rank_order(x)
                                != crate::solver::plain_rank_order(j - 1));
                        }
                    }
                }
            }
            proof {
                assert(plain_prefix(h, s, k as int));
                assert(plain_suit_solid(h, s));
            }
            sidx = sidx + 1;
        }
        s = s + 1;
    }
    proof {
        reveal_with_fuel(spent_counts, 4);
        assert(spent_counts(counts@, 3) == counts[0] + counts[1] + counts[2]);
        assert(hand_size(h) == 8);
        assert(master_hand(h, trump));
    }
    h
}

/// Sum of the first `i` side-suit allocations.
pub open spec fn spent_counts(counts: Seq<u8>, i: int) -> int
    decreases i,
{
    if i <= 0 {
        0
    } else {
        spent_counts(counts, i - 1) + counts[i - 1]
    }
}

/// Pick up to `k` cards of `suit` uniformly, avoiding the cards of
/// `avoid`; exactly `k` when the suit is untouched by `avoid`.
fn take_ranks_avoiding(suit: u8, k: u8, avoid: u32) -> (h: u32)
    requires
        suit < 4,
        k <= 8,
    ensures
        forall|c: u8|
            c < 32 && #[trigger] has_card(h, c) ==> suit_of(c) == suit && !has_card(avoid, c),
        hand_size(h) <= k,
        (forall|r: u8| r < 8 ==> !(#[trigger] has_card(avoid, (suit * 8 + r) as u8))) ==> hand_size(
            h,
        ) == k,
{
    let mut ranks: Vec<u8> = Vec::new();
    let mut r0: u8 = 0;
    while r0 < 8
        invariant
            r0 <= 8,
            ranks@.len() == r0,
            forall|i: int| 0 <= i < ranks@.len() ==> ranks@[i] == i,
        decreases 8 - r0,
    {
        ranks.push(r0);
        r0 = r0 + 1;
    }
    proof {
        assert(ranks@.no_duplicates());
        ranks@.lemma_multiset_has_no_duplicates();
        assert(forall|i: int| 0 <= i < ranks@.len() ==> #[trigger] ranks@[i] < 8);
        assert forall|x: u8| ranks@.to_multiset().count(x) > 0 implies x < 8 by {
            assert(ranks@.contains(x));
        }
    }
    shuffle_cards(&mut ranks);
    proof {
        assert forall|x: u8| ranks@.to_multiset().contains(x) implies ranks@.to_multiset().count(x)
            == 1 by {
        }
        ranks@.lemma_multiset_has_no_duplicates_conv();
        assert forall|i: int| 0 <= i < ranks@.len() implies #[trigger] ranks@[i] < 8 by {
            assert(ranks@.contains(ranks@[i]));
            assert(ranks@.to_multiset().count(ranks@[i]) > 0);
        }
        lemma_zero_count(32);
        crate::cards::lemma_zero_board();
    }

    let mut h: u32 = 0;
    let mut taken: u8 = 0;
    let mut j: u8 = 0;
    while j < 8
        invariant
            suit < 4,
            k <= 8,
            j <= 8,
            taken <= k,
            ranks@.len() == 8,
            ranks@.no_duplicates(),
            forall|i: int| 0 <= i < 8 ==> #[trigger] ranks@[i] < 8,
            hand_size(h) == taken,
            forall|c: u8|
                c < 32 && #[trigger] has_card(h, c) ==> suit_of(c) == suit && !has_card(avoid, c),
            forall|i: int|
                j <= i < 8 ==> !(#[trigger] has_card(h, (suit * 8 + ranks@[i]) as u8)),
            (forall|r: u8| r < 8 ==> !(#[trigger] has_card(avoid, (suit * 8 + r) as u8)))
                ==> taken == (if j < k {
                j as int
            } else {
                k as int
            }),
        decreases 8 - j,
    {
        let r = ranks[j as usize];
        let c = suit * 8 + r;
        let ghost h_old = h;
        if taken < k && !holds(avoid, c) {
            proof {
                assert(!has_card(h, c));
                lemma_count_upto_set(h, c, 32);
                assert forall|x: u8| x < 32 implies (#[trigger] has_card(h | (1u32 << (c as u32)), x)
                    <==> has_card(h, x) || x == c) by {
                    lemma_bit_or(h, 1u32 << (c as u32), x);
                    lemma_bit_single(c, x);
                }
            }
            h = h | (1u32 << (c as u32));
            taken = taken + 1;
            proof {
                assert forall|i: int|
                    j + 1 <= i < 8 implies !(#[trigger] has_card(
                    h,
                    (suit * 8 + ranks@[i]) as u8,
                )) by {
                    assert(ranks@[i] != ranks@[j as int]);
                }
            }
        }
        j = j + 1;
    }
    h
}

/// Cards of `h` in suit `s`, counted.
pub open spec fn suit_count(h: u32, s: u8) -> int {
    hand_size(crate::playing::cards_of_suit(h, s))
}

/// Complete a partial South hand to eight cards and deal the rest.
fn complete_and_deal(h0_partial: u32) -> (hands: [u32; 4])
    requires
        hand_size(h0_partial) <= 8,
    ensures
        deal_wf(hands),
        hands[0] & h0_partial == h0_partial,
        forall|i: int| 0 <= i < 4 ==> hand_size(#[trigger] hands[i]) == 8,
        hand_size(h0_partial) == 8 ==> hands[0] == h0_partial,
{
    proof {
        lemma_count_bounds(h0_partial, 32);
    }
    let sz = crate::solver::count_cards(h0_partial);
    let mut deck = full_deck_minus(h0_partial);
    shuffle_cards(&mut deck);
    let extra = deal_cards(&mut deck, 8 - sz);
    let h0 = h0_partial | extra;
    proof {
        assert forall|c: u8| c < 32 implies (#[trigger] has_card(h0, c) <==> has_card(
            h0_partial,
            c,
        ) || has_card(extra, c)) by {
            lemma_bit_or(h0_partial, extra, c);
        }
        assert forall|c: u8| c < 32 implies !(has_card(h0_partial, c) && has_card(extra, c)) by {
        }
        assert forall|c: u8| c < 32 implies !has_card(h0_partial & extra, c) by {
            lemma_bit_and(h0_partial, extra, c);
        }
        lemma_no_card_zero(h0_partial & extra);
        lemma_union_split(h0_partial, extra, 0, 32);
        crate::playing::lemma_mask_subset(h0_partial, h0);
        crate::cards::lemma_mask_identities(h0, h0_partial);
        if hand_size(h0_partial) == 8 {
            crate::playing::lemma_count_zero_empty(extra);
            crate::cards::lemma_mask_identities(h0_partial, 0);
        }
    }
    deal_remainder(h0)
}

/// Strategy under which a deal is fabricated.
#[derive(Clone, Debug)]
pub enum GenStrategy {
    /// Plain shuffle.
    Random,
    /// A guaranteed master hand for South.
    ForceCapot,
    /// The trump King and Queen forced into South's hand.
    ForceBelote,
    /// A fixed suit-length profile for South, trump suit first.
    ForceShape([u8; 4]),
}

/// Incremental builder for a biased deal: cards forced into South's hand
/// and an optional suit-length profile, completed and dealt at `build`.
pub struct HandBuilder {
    pub trump: u8,
    pub forced: u32,
    pub shape: Option<[u8; 4]>,
}

/// Requirement on a builder for `build` to fill hands of exactly eight:
/// at most eight forced cards, and a shape only on an empty builder with
/// entries that fit one suit and sum to at most eight.
pub open spec fn builder_buildable(b: HandBuilder) -> bool {
    &&& b.trump < 4
    &&& hand_size(b.forced) <= 8
    &&& (match b.shape {
        Some(sh) => b.forced == 0 && sh[0] <= 8 && sh[1] <= 8 && sh[2] <= 8 && sh[3] <= 8 && sh[0]
            + sh[1] + sh[2] + sh[3] <= 8,
        None => true,
    })
}

impl HandBuilder {
    pub fn new(trump: u8) -> (b: HandBuilder)
        requires
            trump < 4,
        ensures
            b.trump == trump,
            b.forced == 0,
            b.shape is None,
    {
        HandBuilder { trump, forced: 0, shape: None }
    }

    /// Force a card into South's hand.
    pub fn force_card(&mut self, card: u8)
        requires
            card < 32,
        ensures
            *final(self) == (HandBuilder {
                forced: old(self).forced | (1u32 << (card as u32)),
                ..*old(self)
            }),
    {
        self.forced = self.forced | (1u32 << (card as u32));
    }

    /// Request a suit-length profile for South, trump suit first.
    pub fn force_shape(&mut self, shape: [u8; 4])
        ensures
            *final(self) == (HandBuilder { shape: Some(shape), ..*old(self) }),
    {
        self.shape = Some(shape);
    }

    /// Deal: South gets the forced cards or the requested profile, filled
    /// to eight at random; the rest of the deck splits over the others.
    pub fn build(&self) -> (hands: [u32; 4])
        requires
            builder_buildable(*self),
        ensures
            deal_wf(hands),
            forall|i: int| 0 <= i < 4 ==> hand_size(#[trigger] hands[i]) == 8,
            hands[0] & self.forced == self.forced,
            (match self.shape {
                Some(sh) => sh[0] + sh[1] + sh[2] + sh[3] == 8 ==> (forall|j: int|
                    0 <= j < 4 ==> #[trigger] suit_count(
                        hands[0],
                        ((self.trump + j) % 4) as u8,
                    ) == sh[j]),
                None => true,
            }),
    {
        match self.shape {
            None => {
                let hands = complete_and_deal(self.forced);
                hands
            },
            Some(shape) => {
                proof {
                    lemma_zero_count(32);
                    crate::cards::lemma_zero_board();
                    assert forall|j: int| 0 <= j < 4 implies #[trigger] crate::playing::cards_of_suit(
                        0u32,
                        ((self.trump + j) % 4) as u8,
                    ) == 0u32 by {
                        let m = crate::cards::suit_mask((((self.trump + j) % 4)) as u8);
                        crate::cards::lemma_mask_identities(m, 0);
                    }
                }
                let mut h0: u32 = 0;
                let mut i: u8 = 0;
                while i < 4
                    invariant
                        self.trump < 4,
                        i <= 4,
                        shape[0] <= 8 && shape[1] <= 8 && shape[2] <= 8 && shape[3] <= 8,
                        hand_size(h0) == spent_counts(
                            seq![shape[0], shape[1], shape[2], shape[3]],
                            i as int,
                        ),
                        forall|j: int|
                            0 <= j < i ==> #[trigger] suit_count(h0, ((self.trump + j) % 4) as u8)
                                == shape[j],
                        forall|j: int|
                            i <= j < 4 ==> #[trigger] crate::playing::cards_of_suit(
                                h0,
                                ((self.trump + j) % 4) as u8,
                            ) == 0u32,
                    decreases 4 - i,
                {
                    let suit = (self.trump + i) % 4;
                    proof {
                        // The current suit is untouched so far, so the draw
                        // fills it exactly.
                        assert forall|r: u8|
                            r < 8 implies !(#[trigger] has_card(h0, (suit * 8 + r) as u8)) by {
                            let card = (suit * 8 + r) as u8;
                            lemma_suit_mask_bit(h0, suit, card);
                            assert(crate::playing::cards_of_suit(h0, suit) == 0u32);
                            crate::cards::lemma_zero_board();
                            assert(!has_card(0u32, card));
                        }
                    }
                    let got = take_ranks_avoiding(suit, shape[i as usize], h0);
                    proof {
                        assert forall|c: u8| c < 32 implies !(has_card(h0, c) && has_card(
                            got,
                            c,
                        )) by {
                        }
                        assert forall|c: u8| c < 32 implies !has_card(h0 & got, c) by {
                            lemma_bit_and(h0, got, c);
                        }
                        lemma_no_card_zero(h0 & got);
                        lemma_union_split(h0, got, 0, 32);
                        // `got` lies wholly inside its suit mask...
                        assert forall|c: u8| c < 32 implies (#[trigger] has_card(got, c)
                            ==> has_card(crate::cards::suit_mask(suit), c)) by {
                            crate::cards::lemma_suit_mask_has(suit, c);
                        }
                        crate::playing::lemma_mask_subset(got, crate::cards::suit_mask(suit));
                        // ...and entirely outside every other suit mask.
                        assert forall|x: u8| x < 4 && x != suit implies got & crate::cards::suit_mask(
                            x,
                        ) == 0u32 by {
                            assert forall|c: u8|
                                c < 32 implies !has_card(got & crate::cards::suit_mask(x), c) by {
                                lemma_suit_mask_bit(got, x, c);
                            }
                            lemma_no_card_zero(got & crate::cards::suit_mask(x));
                        }
                    }
                    let ghost h_old = h0;
                    h0 = h0 | got;
                    i = i + 1;
                    proof {
                        assert forall|j: int, jj: int|
                            0 <= j < 4 && 0 <= jj < 4 && j != jj implies #[trigger] (((self.trump
                            + j) % 4) as u8) != #[trigger] (((self.trump + jj) % 4) as u8) by {
                        }
                        assert forall|j: int|
                            0 <= j < 4 implies #[trigger] crate::playing::cards_of_suit(
                            h0,
                            ((self.trump + j) % 4) as u8,
                        ) == (if j == i - 1 {
                            got
                        } else {
                            crate::playing::cards_of_suit(h_old, ((self.trump + j) % 4) as u8)
                        }) by {
                            let sj = ((self.trump + j) % 4) as u8;
                            let m = crate::cards::suit_mask(sj);
                            crate::cards::lemma_or_and_distribute(h_old, got, m);
                            if j == i - 1 {
                                assert(sj == suit);
                                assert(crate::playing::cards_of_suit(h_old, sj) == 0u32);
                                assert(h_old & m == 0u32);
                                let g = got & m;
                                crate::cards::lemma_mask_identities(g, 0);
                            } else {
                                assert(sj != suit);
                                assert(got & m == 0u32);
                                let hm = h_old & m;
                                crate::cards::lemma_mask_identities(hm, 0);
                            }
                        }
                        assert forall|j: int|
                            0 <= j < i implies #[trigger] suit_count(
                            h0,
                            ((self.trump + j) % 4) as u8,
                        ) == shape[j] by {
                            let sj = ((self.trump + j) % 4) as u8;
                            if j == i - 1 {
                                assert(crate::playing::cards_of_suit(h0, sj) == got);
                            } else {
                                assert(suit_count(h_old, sj) == shape[j]);
                                assert(crate::playing::cards_of_suit(h0, sj)
                                    == crate::playing::cards_of_suit(h_old, sj));
                            }
                        }
                    }
                }
                proof {
                    reveal_with_fuel(spent_counts, 5);
                }
                let hands = complete_and_deal(h0);
                proof {
                    assert(self.forced == 0);
                    let hh = hands[0];
                    crate::cards::lemma_mask_identities(hh, 0);
                }
                hands
            },
        }
    }
}

/// Fabricate one deal under the given strategy: the partition and hand
/// sizes always hold; Force-Capot additionally guarantees a master hand
/// and Force-Belote puts the trump King and Queen with South.
pub fn generate_biased_hands(trump: u8, strategy: GenStrategy) -> (hands: [u32; 4])
    requires
        trump < 4,
    ensures
        deal_wf(hands),
        forall|i: int| 0 <= i < 4 ==> hand_size(#[trigger] hands[i]) == 8,
        strategy is ForceCapot ==> master_hand(hands[0], trump),
        strategy is ForceBelote ==> has_card(hands[0], (trump * 8 + RANK_K) as u8) && has_card(
            hands[0],
            (trump * 8 + RANK_Q) as u8,
        ),
        (match strategy {
            GenStrategy::ForceShape(sh) => sh[0] <= 8 && sh[1] <= 8 && sh[2] <= 8 && sh[3] <= 8
                && sh[0] + sh[1] + sh[2] + sh[3] == 8 ==> (forall|j: int|
                0 <= j < 4 ==> #[trigger] suit_count(hands[0], ((trump + j) % 4) as u8) == sh[j]),
            _ => true,
        }),
{
    match strategy {
        GenStrategy::Random => {
            let mut builder = HandBuilder::new(trump);
            proof {
                lemma_zero_count(32);
            }
            builder.build()
        },
        GenStrategy::ForceBelote => {
            let mut builder = HandBuilder::new(trump);
            proof {
                lemma_zero_count(32);
            }
            builder.force_card(trump * 8 + 6);
            builder.force_card(trump * 8 + 5);
            proof {
                lemma_forced_pair_size(trump);
                let kc = (trump * 8 + RANK_K) as u8;
                let qc = (trump * 8 + RANK_Q) as u8;
                assert(has_card(builder.forced, kc) && has_card(builder.forced, qc)) by {
                    lemma_bit_or(1u32 << ((trump * 8 + 6) as u32), 1u32 << ((trump * 8 + 5) as u32), kc);
                    lemma_bit_or(1u32 << ((trump * 8 + 6) as u32), 1u32 << ((trump * 8 + 5) as u32), qc);
                    lemma_bit_single((trump * 8 + 6) as u8, kc);
                    lemma_bit_single((trump * 8 + 5) as u8, kc);
                    lemma_bit_single((trump * 8 + 6) as u8, qc);
                    lemma_bit_single((trump * 8 + 5) as u8, qc);
                    assert(0u32 | (1u32 << ((trump * 8 + 6) as u32)) == 1u32 << ((trump * 8
                        + 6) as u32)) by (bit_vector);
                }
            }
            let hands = builder.build();
            proof {
                let kc = (trump * 8 + RANK_K) as u8;
                let qc = (trump * 8 + RANK_Q) as u8;
                lemma_bit_and(hands[0], builder.forced, kc);
                lemma_bit_and(hands[0], builder.forced, qc);
            }
            hands
        },
        GenStrategy::ForceCapot => {
            let h0 = build_capot_hand(trump);
            deal_remainder(h0)
        },
        GenStrategy::ForceShape(shape) => {
            let s0 = if shape[0] < 8 {
                shape[0]
            } else {
                8
            };
            let s1 = if shape[1] < 8 {
                shape[1]
            } else {
                8
            };
            let s2 = if shape[2] < 8 {
                shape[2]
            } else {
                8
            };
            let s3 = if shape[3] < 8 {
                shape[3]
            } else {
                8
            };
            let total = s0 as u16 + s1 as u16 + s2 as u16 + s3 as u16;
            let mut builder = HandBuilder::new(trump);
            proof {
                lemma_zero_count(32);
            }
            if total <= 8 {
                builder.force_shape([s0, s1, s2, s3]);
            }
            let hands = builder.build();
            proof {
                if shape[0] <= 8 && shape[1] <= 8 && shape[2] <= 8 && shape[3] <= 8 && shape[0]
                    + shape[1] + shape[2] + shape[3] == 8 {
                    assert(builder.shape == Some(shape));
                    assert forall|j: int|
                        0 <= j < 4 implies #[trigger] suit_count(
                        hands[0],
                        ((trump + j) % 4) as u8,
                    ) == shape[j] by {
                        assert(suit_count(hands[0], ((builder.trump + j) % 4) as u8) == shape[j]);
                    }
                }
            }
            hands
        },
    }
}

/// Two forced cards occupy two bits.
proof fn lemma_forced_pair_size(trump: u8)
    requires
        trump < 4,
    ensures
        hand_size(
            (0u32 | (1u32 << (((trump * 8 + 6) as u8) as u32))) | (1u32 << (((trump * 8
                + 5) as u8) as u32)),
        ) == 2,
{
    lemma_zero_count(32);
    let k = (trump * 8 + 6) as u8;
    let q = (trump * 8 + 5) as u8;
    crate::cards::lemma_zero_board();
    lemma_count_upto_set(0u32, k, 32);
    crate::cards::lemma_mask_identities(1u32 << (k as u32), 0);
    assert(!has_card(1u32 << (k as u32), q)) by {
        lemma_bit_single(k, q);
    }
    lemma_count_upto_set(1u32 << (k as u32), q, 32);
}

/// Four consecutive entries of a flattened batch form a valid deal.
pub open spec fn flat_deal_wf(s: Seq<u32>, i: int) -> bool {
    &&& (forall|a: int, b: int|
        0 <= a < 4 && 0 <= b < 4 && a != b ==> #[trigger] s[4 * i + a] & #[trigger] s[4 * i + b]
            == 0)
    &&& s[4 * i] | s[4 * i + 1] | s[4 * i + 2] | s[4 * i + 3] == FULL_DECK
}

/// The fresh position in which a flattened deal is solved: the given
/// hands, the given trump, South to lead.
pub open spec fn deal_state(s: Seq<u32>, i: int, trump: u8) -> PlayingState {
    PlayingState {
        hands: [s[4 * i] as u32, s[4 * i + 1] as u32, s[4 * i + 2] as u32, s[4 * i + 3] as u32],
        current_trick: [
            crate::cards::NO_CARD,
            crate::cards::NO_CARD,
            crate::cards::NO_CARD,
            crate::cards::NO_CARD,
        ],
        tricks_won: [0u8, 0u8],
        points: [0u16, 0u16],
        trump,
        current_player: 0u8,
        trick_starter: 0u8,
        trick_size: 0u8,
        belote_scored: [false, false],
        last_trick: [
            crate::cards::NO_CARD,
            crate::cards::NO_CARD,
            crate::cards::NO_CARD,
            crate::cards::NO_CARD,
        ],
        last_trick_starter: 0u8,
        last_trick_winner: None::<u8>,
    }
}

/// Produce `batch_size` deals under the weighted strategy mixture
/// (Random 40, Force-Capot 20, Force-Belote 20, Force-Shape 20), each for
/// a uniformly drawn trump.  Returns the hands seat-major and one strategy
/// tag per deal; every deal partitions the deck into four hands of eight,
/// and every Force-Capot deal gives South a master hand.
pub fn generate_hand_batch(batch_size: usize) -> (r: (Vec<u32>, Vec<u8>))
    requires
        batch_size < 0x1000_0000,
    ensures
        r.0@.len() == batch_size * 4,
        r.1@.len() == batch_size,
        forall|i: int| 0 <= i < batch_size ==> flat_deal_wf(r.0@, i),
        forall|i: int| 0 <= i < batch_size ==> #[trigger] r.1@[i] <= 3,
        forall|i: int|
            0 <= i < batch_size && #[trigger] r.1@[i] == 1 ==> exists|t: u8|
                t < 4 && #[trigger] master_hand(r.0@[4 * i], t),
{
    let mut hands: Vec<u32> = Vec::new();
    let mut tags: Vec<u8> = Vec::new();
    let mut done: usize = 0;
    while done < batch_size
        invariant
            batch_size < 0x1000_0000,
            done <= batch_size,
            hands@.len() == done * 4,
            tags@.len() == done,
            forall|i: int| 0 <= i < done ==> flat_deal_wf(hands@, i),
            forall|i: int| 0 <= i < done ==> #[trigger] tags@[i] <= 3,
            forall|i: int|
                0 <= i < done && #[trigger] tags@[i] == 1 ==> exists|t: u8|
                    t < 4 && #[trigger] master_hand(hands@[4 * i], t),
        decreases batch_size - done,
    {
        let trump = random_below(4) as u8;
        let roll = random_below(100);
        let (strategy, tag): (GenStrategy, u8) = if roll < 40 {
            (GenStrategy::Random, 0)
        } else if roll < 60 {
            (GenStrategy::ForceCapot, 1)
        } else if roll < 80 {
            (GenStrategy::ForceBelote, 2)
        } else {
            let shape: [u8; 4] = match random_below(4) {
                0 => [5, 2, 1, 0],
                1 => [4, 2, 1, 1],
                2 => [4, 3, 1, 0],
                _ => [3, 3, 2, 0],
            };
            (GenStrategy::ForceShape(shape), 3)
        };
        let ghost is_capot = strategy is ForceCapot;
        let deal = generate_biased_hands(trump, strategy);
        let ghost hands0 = hands@;
        hands.push(deal[0]);
        hands.push(deal[1]);
        hands.push(deal[2]);
        hands.push(deal[3]);
        tags.push(tag);
        proof {
            assert(hands@.len() == done * 4 + 4);
            assert forall|i: int| 0 <= i < done + 1 implies flat_deal_wf(hands@, i) by {
                if i < done {
                    assert(flat_deal_wf(hands0, i));
                    assert forall|a: int, b: int|
                        0 <= a < 4 && 0 <= b < 4 && a != b implies #[trigger] hands@[4 * i + a]
                        & #[trigger] hands@[4 * i + b] == 0 by {
                        assert(hands@[4 * i + a] == hands0[4 * i + a]);
                        assert(hands@[4 * i + b] == hands0[4 * i + b]);
                    }
                    assert(hands@[4 * i] == hands0[4 * i] && hands@[4 * i + 1] == hands0[4 * i + 1]
                        && hands@[4 * i + 2] == hands0[4 * i + 2] && hands@[4 * i + 3] == hands0[4
                        * i + 3]);
                } else {
                    assert(hands@[4 * i] == deal[0] && hands@[4 * i + 1] == deal[1] && hands@[4 * i
                        + 2] == deal[2] && hands@[4 * i + 3] == deal[3]);
                    assert forall|a: int, b: int|
                        0 <= a < 4 && 0 <= b < 4 && a != b implies #[trigger] hands@[4 * i + a]
                        & #[trigger] hands@[4 * i + b] == 0 by {
                        assert(hands@[4 * i + a] == deal[a] && hands@[4 * i + b] == deal[b]);
                    }
                }
            }
            assert forall|i: int|
                0 <= i < done + 1 && #[trigger] tags@[i] == 1 implies exists|t: u8|
                t < 4 && #[trigger] master_hand(hands@[4 * i], t) by {
                if i < done {
                    assert(tags@[i] == tags.view()[i]);
                    let t0 = choose|t: u8| t < 4 && #[trigger] master_hand(hands0[4 * i], t);
                    assert(hands@[4 * i] == hands0[4 * i]);
                    assert(master_hand(hands@[4 * i], t0));
                } else {
                    assert(is_capot);
                    assert(hands@[4 * i] == deal[0]);
                    assert(master_hand(hands@[4 * i], trump));
                }
            }
        }
        done = done + 1;
    }
    (hands, tags)
}

/// Evaluate each deal of a flattened batch for the four trump contracts
/// at full depth.  With `pimc_iterations` at most one, each entry is the
/// deterministic perfect-information solve of the supplied deal; with
/// more, each entry accumulates that many determinised solves in which the
/// twenty-four cards outside South's hand are reshuffled over the other
/// seats — the caller divides by the iteration count for the mean.
pub fn solve_hand_batch(
    flattened_hands: &Vec<u32>,
    pimc_iterations: usize,
    tt_size_log2: u8,
) -> (scores: Vec<Vec<i32>>)
    requires
        flattened_hands@.len() % 4 == 0,
        tt_size_log2 <= 24,
        pimc_iterations <= 1000,
        forall|i: int| 0 <= i < flattened_hands@.len() / 4 ==> flat_deal_wf(flattened_hands@, i),
    ensures
        scores@.len() == flattened_hands@.len() / 4,
        forall|i: int| 0 <= i < scores@.len() ==> #[trigger] scores@[i]@.len() == 4,
        pimc_iterations <= 1 ==> forall|i: int, t: u8|
            0 <= i < scores@.len() && t < 4 ==> #[trigger] scores@[i]@[t as int]
                == crate::solver::solve_spec(
                deal_state(flattened_hands@, i, t),
                32,
                tt_size_log2,
            ).0,
{
    let n = flattened_hands.len() / 4;
    let mut scores: Vec<Vec<i32>> = Vec::new();
    let mut i: usize = 0;
    while i < n
        invariant
            n == flattened_hands@.len() / 4,
            flattened_hands@.len() % 4 == 0,
            flattened_hands@.len() <= usize::MAX,
            tt_size_log2 <= 24,
            pimc_iterations <= 1000,
            forall|k: int|
                0 <= k < flattened_hands@.len() / 4 ==> flat_deal_wf(flattened_hands@, k),
            i <= n,
            scores@.len() == i,
            forall|k: int| 0 <= k < i ==> #[trigger] scores@[k]@.len() == 4,
            pimc_iterations <= 1 ==> forall|k: int, t: u8|
                0 <= k < i && t < 4 ==> #[trigger] scores@[k]@[t as int]
                    == crate::solver::solve_spec(
                    deal_state(flattened_hands@, k, t),
                    32,
                    tt_size_log2,
                ).0,
        decreases n - i,
    {
        proof {
            assert(flattened_hands@.len() == 4 * (flattened_hands@.len() / 4));
            assert(4 * i + 3 < flattened_hands@.len());
        }
        let h0 = flattened_hands[4 * i];
        let h1 = flattened_hands[4 * i + 1];
        let h2 = flattened_hands[4 * i + 2];
        let h3 = flattened_hands[4 * i + 3];
        let mut per_trump: Vec<i32> = Vec::new();
        let mut t: u8 = 0;
        while t < 4
            invariant
                t <= 4,
                per_trump@.len() == t,
                flattened_hands@.len() % 4 == 0,
                tt_size_log2 <= 24,
                pimc_iterations <= 1000,
                0 <= i < flattened_hands@.len() / 4,
                h0 == flattened_hands@[4 * i] && h1 == flattened_hands@[4 * i + 1] && h2
                    == flattened_hands@[4 * i + 2] && h3 == flattened_hands@[4 * i + 3],
                forall|k: int|
                    0 <= k < flattened_hands@.len() / 4 ==> flat_deal_wf(flattened_hands@, k),
                pimc_iterations <= 1 ==> forall|x: u8|
                    x < t ==> #[trigger] per_trump@[x as int] == crate::solver::solve_spec(
                        deal_state(flattened_hands@, i as int, x),
                        32,
                        tt_size_log2,
                    ).0,
            decreases 4 - t,
        {
            let mut state = PlayingState::new(t);
            state.hands[0] = h0;
            state.hands[1] = h1;
            state.hands[2] = h2;
            state.hands[3] = h3;
            proof {
                assert(flat_deal_wf(flattened_hands@, i as int));
                assert(state =~= deal_state(flattened_hands@, i as int, t));
                assert forall|a: int, b: int|
                    0 <= a < 4 && 0 <= b < 4 && a != b implies state.hands[a] & state.hands[b]
                    == 0 by {
                    assert(flattened_hands@[4 * i + a] & flattened_hands@[4 * i + b] == 0);
                    assert(state.hands[a] == flattened_hands@[4 * i + a]);
                    assert(state.hands[b] == flattened_hands@[4 * i + b]);
                }
                assert(state.hands[0] | state.hands[1] | state.hands[2] | state.hands[3]
                    == FULL_DECK);
                crate::playing::lemma_fresh_deal(state);
            }
            if pimc_iterations <= 1 {
                let (score, _mv) = crate::solver::solve(&state, 32, tt_size_log2);
                per_trump.push(score as i32);
            } else {
                let mut acc: i32 = 0;
                let mut worker = crate::solver::Solver::new(tt_size_log2);
                let mut it: usize = 0;
                while it < pimc_iterations
                    invariant
                        pimc_iterations <= 1000,
                        it <= pimc_iterations,
                        t < 4,
                        acc >= -31000 * (it as int) && acc <= 31000 * (it as int),
                        crate::solver::solver_wf(worker),
                        worker.generation == it,
                        worker.hands_solved == it,
                        wf(state),
                        state.trump == t && state.hands[0] == h0,
                    decreases pimc_iterations - it,
                {
                    // Re-deal the cards South cannot see.
                    let mut deck = full_deck_minus(state.hands[0]);
                    proof {
                        lemma_count_bounds(state.hands[0], 32);
                        crate::playing::lemma_points_bounded(state);
                    }
                    if deck.len() == 24 {
                        shuffle_cards(&mut deck);
                        let n1 = deal_cards(&mut deck, 8);
                        let n2 = deal_cards(&mut deck, 8);
                        let n3 = deal_cards(&mut deck, 8);
                        let mut sampled = PlayingState::new(t);
                        sampled.hands[0] = state.hands[0];
                        sampled.hands[1] = n1;
                        sampled.hands[2] = n2;
                        sampled.hands[3] = n3;
                        proof {
                            lemma_deal_from_counts(
                                deck@,
                                [sampled.hands[0], n1, n2, n3],
                            );
                            assert(sampled.hands[0] == state.hands[0]);
                            crate::playing::lemma_fresh_deal(sampled);
                        }
                        let (score, _mv) = worker.solve(&sampled, 32);
                        acc = acc + score as i32;
                    } else {
                        let (score, _mv) = worker.solve(&state, 32);
                        acc = acc + score as i32;
                    }
                    it = it + 1;
                }
                per_trump.push(acc);
            }
            t = t + 1;
        }
        scores.push(per_trump);
        i = i + 1;
        proof {
            assert(forall|k: int| 0 <= k < i - 1 ==> scores@[k] == scores@.drop_last()[k]);
        }
    }
    scores
}

/// Sure points of a hand for bidding: the top trumps, the plain-suit
/// aces, and the Belote pair.
pub open spec fn hand_potential(hand: u32, trump: u8) -> int {
    (if has_card(hand, (trump * 8 + RANK_J) as u8) {
        20int
    } else {
        0
    }) + (if has_card(hand, (trump * 8 + RANK_9) as u8) {
        14int
    } else {
        0
    }) + (if has_card(hand, (trump * 8 + RANK_A) as u8) {
        11int
    } else {
        0
    }) + ace_points(hand, trump, 4) + (if has_card(hand, (trump * 8 + RANK_K) as u8) && has_card(
        hand,
        (trump * 8 + RANK_Q) as u8,
    ) {
        20int
    } else {
        0
    })
}

/// Eleven points for each held ace of a plain suit below `s`.
pub open spec fn ace_points(hand: u32, trump: u8, s: int) -> int
    decreases s,
{
    if s <= 0 {
        0
    } else {
        ace_points(hand, trump, s - 1) + if s - 1 != trump && has_card(
            hand,
            ((s - 1) * 8 + RANK_A) as u8,
        ) {
            11int
        } else {
            0
        }
    }
}

/// Quick pre-filter for bidding: count the points a hand is sure to cash —
/// its top trumps, its side aces, and Belote.
pub fn evaluate_hand_potential(hand: u32, trump: u8) -> (p: u16)
    requires
        trump < 4,
    ensures
        p as int == hand_potential(hand, trump),
{
    let mut p: u16 = 0;
    if holds(hand, trump * 8 + RANK_J) {
        p = p + 20;
    }
    if holds(hand, trump * 8 + RANK_9) {
        p = p + 14;
    }
    if holds(hand, trump * 8 + RANK_A) {
        p = p + 11;
    }
    let mut s: u8 = 0;
    let ghost base = p as int;
    while s < 4
        invariant
            trump < 4,
            s <= 4,
            p as int == base + ace_points(hand, trump, s as int),
            base <= 45,
            p <= base + 11 * s,
        decreases 4 - s,
    {
        if s != trump {
            if holds(hand, s * 8 + RANK_A) {
                p = p + 11;
            }
        }
        s = s + 1;
    }
    if holds(hand, trump * 8 + RANK_K) && holds(hand, trump * 8 + RANK_Q) {
        p = p + 20;
    }
    p
}

/// When the deck has run empty, hands whose bits account for every card
/// exactly once form a partition of the full deck.
proof fn lemma_deal_from_counts(deck: Seq<u8>, hands: [u32; 4])
    requires
        deck.len() == 0,
        forall|c: u8|
            c < 32 ==> #[trigger] deck.to_multiset().count(c) + held_count(hands, c) == 1,
    ensures
        deal_wf(hands),
{
    assert(deck =~= Seq::<u8>::empty());
    assert(forall|c: u8| #[trigger] deck.to_multiset().count(c) == 0) by {
        assert(deck.to_multiset() =~= Multiset::<u8>::empty());
    }
    assert forall|i: int, j: int|
        0 <= i < 4 && 0 <= j < 4 && i != j implies #[trigger] hands[i] & #[trigger] hands[j]
        == 0 by {
        assert forall|c: u8| c < 32 implies !has_card(hands[i] & hands[j], c) by {
            lemma_bit_and(hands[i], hands[j], c);
            assert(deck.to_multiset().count(c) == 0);
            assert(held_count(hands, c) == 1);
        }
        lemma_no_card_zero(hands[i] & hands[j]);
    }
    let u = hands[0] | hands[1] | hands[2] | hands[3];
    assert forall|c: u8| c < 32 implies #[trigger] has_card(u, c) by {
        lemma_bit_or(hands[0] | hands[1] | hands[2], hands[3], c);
        lemma_bit_or(hands[0] | hands[1], hands[2], c);
        lemma_bit_or(hands[0], hands[1], c);
        assert(deck.to_multiset().count(c) == 0);
        assert(held_count(hands, c) == 1);
    }
    assert forall|c: u8| c < 32 implies #[trigger] has_card(FULL_DECK, c) by {
        assert(0xFFFF_FFFFu32 >> (c as u32) & 1u32 == 1u32) by (bit_vector)
            requires
                c < 32,
        ;
    }
    lemma_mask_extensional(u, FULL_DECK);
}

} // verus!
