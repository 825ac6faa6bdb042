//! The mutable play-phase position and its transition `play_card`.
//!
//! A position holds the four hand bitboards, the in-progress trick, the
//! per-team trick and point tallies, the Belote flags and the trump.  The
//! only mutation during play is `play_card`, which applies a card assumed
//! legal, credits Belote when it falls, and resolves the trick when the
//! fourth card lands.

use vstd::prelude::*;

use crate::cards::{
    card_points, card_points_of, card_strength, card_strength_of, has_card, holds, lemma_bit_and,
    lemma_bit_clear, lemma_bit_or, lemma_bit_single, lemma_disjoint_bit, lemma_nonzero_has_card,
    lemma_suit_mask_bit, rank_of, suit_mask, suit_of, trump_strength, trump_strength_of, NO_CARD,
    RANK_K, RANK_Q,
};
use vstd::array::spec_array_update;

verus! {

#[derive(Clone, Copy, Debug)]
#[verifier::ext_equal]
pub struct PlayingState {
    pub hands: [u32; 4],
    pub current_trick: [u8; 4],
    pub tricks_won: [u8; 2],
    pub points: [u16; 2],
    pub trump: u8,
    pub current_player: u8,
    pub trick_starter: u8,
    pub trick_size: u8,
    pub belote_scored: [bool; 2],
    pub last_trick: [u8; 4],
    pub last_trick_starter: u8,
    pub last_trick_winner: Option<u8>,
}

/// The seat that plays `i`-th in the current trick (0-based from the leader).
pub open spec fn seat_at(s: PlayingState, i: int) -> int {
    (s.trick_starter + i) % 4
}

/// Has `seat` already placed a card in the current trick?
pub open spec fn seat_played(s: PlayingState, seat: int) -> bool {
    (seat - s.trick_starter + 4) % 4 < s.trick_size
}

/// Sum of the point values of the cards of `h` below card index `n`.
pub open spec fn hand_points_upto(h: u32, trump: u8, n: int) -> int
    decreases n,
{
    if n <= 0 {
        0
    } else {
        hand_points_upto(h, trump, n - 1) + if has_card(h, (n - 1) as u8) {
            card_points((n - 1) as u8, trump) as int
        } else {
            0
        }
    }
}

/// Sum of the point values of the cards of `h`.
pub open spec fn hand_points(h: u32, trump: u8) -> int {
    hand_points_upto(h, trump, 32)
}

/// Number of cards of `h` below card index `n`.
pub open spec fn count_upto(h: u32, n: int) -> int
    decreases n,
{
    if n <= 0 {
        0
    } else {
        count_upto(h, n - 1) + if has_card(h, (n - 1) as u8) {
            1int
        } else {
            0
        }
    }
}

/// Number of cards of `h`.
pub open spec fn hand_size(h: u32) -> int {
    count_upto(h, 32)
}

/// Point value of the card `seat` placed in the trick, or 0 if it has not played.
pub open spec fn seat_trick_points(s: PlayingState, seat: int) -> int {
    if seat_played(s, seat) {
        card_points(s.current_trick[seat], s.trump) as int
    } else {
        0
    }
}

/// Sum of the point values of the cards currently in the trick.
pub open spec fn trick_points(s: PlayingState) -> int {
    seat_trick_points(s, 0) + seat_trick_points(s, 1) + seat_trick_points(s, 2)
        + seat_trick_points(s, 3)
}

/// Cards still to be played: in hands or in the in-progress trick.
pub open spec fn total_cards(s: PlayingState) -> int {
    hand_size(s.hands[0]) + hand_size(s.hands[1]) + hand_size(s.hands[2]) + hand_size(s.hands[3])
        + s.trick_size
}

pub open spec fn is_terminal_spec(s: PlayingState) -> bool {
    s.hands[0] == 0 && s.hands[1] == 0 && s.hands[2] == 0 && s.hands[3] == 0
}

/// Can some team still complete a Capot (neither team has all eight tricks yet)?
pub open spec fn capot_open(s: PlayingState) -> bool {
    s.tricks_won[0] < 8 && s.tricks_won[1] < 8
}

/// Point mass still in play plus the points already credited.
///
/// `play_card` preserves this quantity exactly: every point that enters
/// `points` leaves the hands, the trick, or one of the pending-bonus terms.
pub open spec fn balance(s: PlayingState) -> int {
    s.points[0] + s.points[1] + hand_points(s.hands[0], s.trump) + hand_points(
        s.hands[1],
        s.trump,
    ) + hand_points(s.hands[2], s.trump) + hand_points(s.hands[3], s.trump) + trick_points(s) + 20
        * (2 - (if s.belote_scored[0] {
        1int
    } else {
        0
    }) - (if s.belote_scored[1] {
        1int
    } else {
        0
    })) + (if is_terminal_spec(s) {
        0int
    } else {
        10
    }) + (if capot_open(s) {
        90int
    } else {
        0
    })
}

/// Completed tricks bound: each completed trick consumed four cards.
pub open spec fn trick_count_measure(s: PlayingState) -> int {
    4 * (s.tricks_won[0] + s.tricks_won[1]) + total_cards(s)
}

/// Point balance of a freshly dealt round: 152 card points, two pending
/// Belotes, the 10-de-der and the Capot bonus.
pub const FULL_BALANCE: u16 = 292;

/// Structural sanity of a position.  Constructors establish it and
/// `play_card` preserves it.
pub open spec fn wf(s: PlayingState) -> bool {
    &&& s.trump < 6
    &&& s.current_player < 4
    &&& s.trick_starter < 4
    &&& s.trick_size < 4
    &&& s.current_player as int == seat_at(s, s.trick_size as int)
    &&& (forall|i: int|
        0 <= i < 4 ==> (seat_played(s, i) <==> s.current_trick[i] != NO_CARD))
    &&& (forall|i: int| 0 <= i < 4 && seat_played(s, i) ==> s.current_trick[i] < 32)
    &&& (forall|i: int, j: int|
        0 <= i < 4 && 0 <= j < 4 && i != j ==> s.hands[i] & s.hands[j] == 0)
    &&& (forall|i: int, j: int|
        0 <= i < 4 && 0 <= j < 4 && seat_played(s, i) ==> !has_card(
            s.hands[j],
            s.current_trick[i],
        ))
    &&& (forall|i: int, j: int|
        0 <= i < 4 && 0 <= j < 4 && i != j && seat_played(s, i) && seat_played(s, j)
            ==> s.current_trick[i] != s.current_trick[j])
    &&& balance(s) <= FULL_BALANCE
    &&& trick_count_measure(s) <= 32
}

/// Does `new` beat `best` once `best` is the card in command of the trick?
/// Trump beats plain; within one suit the applicable strength table decides;
/// a plain card of another suit never takes command.
pub open spec fn card_beats(trump: u8, new: u8, best: u8) -> bool {
    if suit_of(new) == trump && suit_of(best) != trump {
        true
    } else if suit_of(best) == trump && suit_of(new) != trump {
        false
    } else if suit_of(new) == suit_of(best) {
        card_strength(new, trump) > card_strength(best, trump)
    } else {
        false
    }
}

/// Seat in command of the trick after its first `n` cards.
pub open spec fn best_seat_upto(trump: u8, trick: Seq<u8>, starter: int, n: int) -> int
    recommends
        0 <= starter < 4,
        1 <= n <= 4,
        trick.len() == 4,
    decreases n,
{
    if n <= 1 {
        starter
    } else {
        let prev = best_seat_upto(trump, trick, starter, n - 1);
        let p = (starter + (n - 1)) % 4;
        if card_beats(trump, trick[p], trick[prev]) {
            p
        } else {
            prev
        }
    }
}

/// Seat currently winning the in-progress trick.
pub open spec fn winning_seat(s: PlayingState) -> int {
    best_seat_upto(s.trump, s.current_trick@, s.trick_starter as int, s.trick_size as int)
}

/// Card currently winning the in-progress trick.
pub open spec fn winning_card(s: PlayingState) -> u8 {
    s.current_trick[winning_seat(s)]
}

pub proof fn lemma_best_seat_played(trump: u8, trick: Seq<u8>, starter: int, n: int)
    requires
        0 <= starter < 4,
        1 <= n <= 4,
        trick.len() == 4,
    ensures
        0 <= best_seat_upto(trump, trick, starter, n) < 4,
        (best_seat_upto(trump, trick, starter, n) - starter + 4) % 4 < n,
    decreases n,
{
    if n > 1 {
        lemma_best_seat_played(trump, trick, starter, n - 1);
    }
}

impl PlayingState {
    /// Fresh position for a round with the given trump; hands empty,
    /// no trick in progress, seat 0 to lead.
    pub fn new(trump: u8) -> (s: PlayingState)
        requires
            trump < 6,
        ensures
            s == (PlayingState {
                hands: [0u32, 0u32, 0u32, 0u32],
                current_trick: [NO_CARD, NO_CARD, NO_CARD, NO_CARD],
                tricks_won: [0u8, 0u8],
                points: [0u16, 0u16],
                trump,
                current_player: 0u8,
                trick_starter: 0u8,
                trick_size: 0u8,
                belote_scored: [false, false],
                last_trick: [NO_CARD, NO_CARD, NO_CARD, NO_CARD],
                last_trick_starter: 0u8,
                last_trick_winner: None::<u8>,
            }),
            wf(s),
    {
        let s = PlayingState {
            hands: [0u32, 0u32, 0u32, 0u32],
            current_trick: [NO_CARD, NO_CARD, NO_CARD, NO_CARD],
            tricks_won: [0u8, 0u8],
            points: [0u16, 0u16],
            trump,
            current_player: 0,
            trick_starter: 0,
            trick_size: 0,
            belote_scored: [false, false],
            last_trick: [NO_CARD, NO_CARD, NO_CARD, NO_CARD],
            last_trick_starter: 0,
            last_trick_winner: None,
        };
        proof {
            lemma_zero_hand_points(trump, 32);
            lemma_zero_count(32);
            crate::cards::lemma_mask_identities(0, 0);
        }
        s
    }

    pub fn is_terminal(&self) -> (b: bool)
        ensures
            b == is_terminal_spec(*self),
    {
        self.hands[0] == 0 && self.hands[1] == 0 && self.hands[2] == 0 && self.hands[3] == 0
    }

    pub fn get_hand(&self, player: u8) -> (h: u32)
        ensures
            h == if player < 4 {
                self.hands[player as int]
            } else {
                0
            },
    {
        if player < 4 {
            self.hands[player as usize]
        } else {
            0
        }
    }
}

/// Weak sanity of the in-progress trick: enough to identify its winner.
/// Implied by `wf`, and still true while the fourth card sits in the trick.
pub open spec fn trick_wf(s: PlayingState) -> bool {
    &&& s.trump < 6
    &&& s.trick_starter < 4
    &&& 1 <= s.trick_size <= 4
    &&& (forall|i: int| 0 <= i < 4 && seat_played(s, i) ==> s.current_trick[i] < 32)
}

impl PlayingState {
    /// Compare a candidate card against the card in command of the trick.
    /// The lead suit is implicit: the card in command is always the lead
    /// suit or a trump, so a card of any other suit never takes command.
    fn is_card_better(&self, new_card: u8, best_card: u8, _lead_suit: u8) -> (b: bool)
        requires
            new_card < 32,
            best_card < 32,
        ensures
            b == card_beats(self.trump, new_card, best_card),
    {
        let new_suit = new_card / 8;
        let best_suit = best_card / 8;

        if new_suit == self.trump && best_suit != self.trump {
            return true;
        }
        if best_suit == self.trump && new_suit != self.trump {
            return false;
        }
        if new_suit == best_suit {
            card_strength_of(new_card, self.trump) > card_strength_of(best_card, self.trump)
        } else {
            false
        }
    }

    /// Seat currently winning the in-progress trick.
    pub(crate) fn get_current_trick_winner_player(&self) -> (w: u8)
        requires
            trick_wf(*self),
        ensures
            w < 4,
            w as int == winning_seat(*self),
    {
        let ghost s = *self;
        let mut best_player: u8 = self.trick_starter;
        let mut best_card: u8 = self.current_trick[self.trick_starter as usize];
        proof {
            assert(seat_played(s, s.trick_starter as int));
        }
        let mut i: u8 = 1;
        while i < self.trick_size
            invariant
                trick_wf(s),
                s == *self,
                1 <= i <= s.trick_size,
                best_player < 4,
                best_player as int == best_seat_upto(
                    s.trump,
                    s.current_trick@,
                    s.trick_starter as int,
                    i as int,
                ),
                best_card == s.current_trick[best_player as int],
                best_card < 32,
            decreases s.trick_size - i,
        {
            let p = (self.trick_starter + i) % 4;
            proof {
                assert(seat_played(s, p as int));
            }
            let card = self.current_trick[p as usize];
            if self.is_card_better(card, best_card, 0) {
                best_card = card;
                best_player = p;
            }
            i = i + 1;
        }
        best_player
    }

    /// Card currently winning the in-progress trick.
    pub(crate) fn get_current_trick_winner(&self) -> (c: u8)
        requires
            trick_wf(*self),
        ensures
            c == winning_card(*self),
            c < 32,
    {
        let w = self.get_current_trick_winner_player();
        proof {
            lemma_best_seat_played(
                self.trump,
                self.current_trick@,
                self.trick_starter as int,
                self.trick_size as int,
            );
            assert(seat_played(*self, w as int));
        }
        self.current_trick[w as usize]
    }
}

/// Cards of `h` in suit `s`; no suit means no cards (covers the
/// no-trump and all-trump encodings, where no suit is the trump).
pub open spec fn cards_of_suit(h: u32, s: u8) -> u32 {
    if s < 4 {
        h & suit_mask(s)
    } else {
        0
    }
}

/// Strength of the card currently in command, under the table that applies
/// to it.
pub open spec fn winner_strength(s: PlayingState) -> u8 {
    card_strength(winning_card(s), s.trump)
}

/// Does `h` hold a trump stronger than the card currently in command?
pub open spec fn has_higher_trump(s: PlayingState, h: u32) -> bool {
    exists|r: u8|
        r < 8 && #[trigger] trump_strength(r) > winner_strength(s) && has_card(
            h,
            (s.trump * 8 + r) as u8,
        )
}

/// The legal-move rule of Coinche, per candidate card `c`.
///
/// Lead anything; follow the lead suit, going higher when the lead suit is
/// the trump and going higher is possible; when void, cut with a trump —
/// over-cutting when the trick is already cut and over-cutting is possible —
/// unless the partner is in command; discard anything otherwise.
pub open spec fn card_legal(s: PlayingState, c: u8) -> bool {
    let hand = s.hands[s.current_player as int];
    &&& c < 32
    &&& has_card(hand, c)
    &&& (s.trick_size == 0 || {
        let lead = s.current_trick[s.trick_starter as int];
        let ls = suit_of(lead);
        if cards_of_suit(hand, ls) != 0 {
            if ls == s.trump && has_higher_trump(s, hand) {
                suit_of(c) == s.trump && trump_strength(rank_of(c)) > winner_strength(s)
            } else {
                suit_of(c) == ls
            }
        } else if winning_seat(s) == (s.current_player + 2) % 4 {
            true
        } else if cards_of_suit(hand, s.trump) != 0 {
            if suit_of(winning_card(s)) == s.trump && has_higher_trump(s, hand) {
                suit_of(c) == s.trump && trump_strength(rank_of(c)) > winner_strength(s)
            } else {
                suit_of(c) == s.trump
            }
        } else {
            true
        }
    })
}

/// When the lead is a trump, the card in command stays a trump.
pub proof fn lemma_winner_trump_lead(trump: u8, trick: Seq<u8>, starter: int, n: int)
    requires
        0 <= starter < 4,
        1 <= n <= 4,
        trick.len() == 4,
        suit_of(trick[starter]) == trump,
    ensures
        suit_of(trick[best_seat_upto(trump, trick, starter, n)]) == trump,
    decreases n,
{
    if n > 1 {
        lemma_winner_trump_lead(trump, trick, starter, n - 1);
    }
}

/// Bitboard of the trumps of `cards` strictly stronger than `wstr`.
fn filter_higher_trumps(cards: u32, trump: u8, wstr: u8) -> (m: u32)
    requires
        trump < 4,
    ensures
        forall|c: u8|
            c < 32 ==> (#[trigger] has_card(m, c) <==> has_card(cards, c) && suit_of(c) == trump
                && trump_strength(rank_of(c)) > wstr),
{
    let mut m: u32 = 0;
    proof {
        crate::cards::lemma_zero_board();
    }
    let mut r: u8 = 0;
    while r < 8
        invariant
            trump < 4,
            r <= 8,
            forall|c: u8|
                c < 32 ==> (#[trigger] has_card(m, c) <==> has_card(cards, c) && suit_of(c)
                    == trump && rank_of(c) < r && trump_strength(rank_of(c)) > wstr),
        decreases 8 - r,
    {
        let idx = trump * 8 + r;
        let ghost m0 = m;
        if holds(cards, idx) && trump_strength_of(r) > wstr {
            m = m | (1u32 << (idx as u32));
            proof {
                assert forall|c: u8| c < 32 implies (#[trigger] has_card(m, c) <==> has_card(
                    m0,
                    c,
                ) || c == idx) by {
                    lemma_bit_or(m0, 1u32 << (idx as u32), c);
                    lemma_bit_single(idx, c);
                }
            }
        }
        proof {
            assert(idx / 8 == trump && idx % 8 == r);
            assert(forall|c: u8|
                c < 32 && #[trigger] suit_of(c) == trump && rank_of(c) == r ==> c == idx);
        }
        r = r + 1;
    }
    m
}

impl PlayingState {
    /// Bitboard of the legal moves of the seat to play.
    ///
    /// The result is a subset of the mover's hand, holds exactly the cards
    /// that `card_legal` admits, and is non-empty whenever the hand is.
    pub fn get_legal_moves(&self) -> (m: u32)
        requires
            wf(*self),
        ensures
            forall|c: u8| c < 32 ==> (#[trigger] has_card(m, c) <==> card_legal(*self, c)),
            m & self.hands[self.current_player as int] == m,
            self.hands[self.current_player as int] != 0 ==> m != 0,
    {
        let ghost s = *self;
        let hand = self.hands[self.current_player as usize];
        proof {
            lemma_mask_subset_of_self(hand);
        }

        if self.trick_size == 0 {
            return hand;
        }
        proof {
            assert(seat_played(s, s.trick_starter as int));
        }
        let lead_card = self.current_trick[self.trick_starter as usize];
        let lead_suit = lead_card / 8;

        let hand_lead_suit = hand & (0xFFu32 << ((lead_suit as u32) * 8));
        proof {
            assert forall|c: u8| c < 32 implies (#[trigger] has_card(hand_lead_suit, c)
                <==> has_card(hand, c) && suit_of(c) == lead_suit) by {
                lemma_suit_mask_bit(hand, lead_suit, c);
            }
            lemma_mask_subset(hand_lead_suit, hand);
        }

        // Must follow the lead suit; when the lead suit is the trump, must
        // additionally go higher than the card in command if possible.
        if hand_lead_suit != 0 {
            if lead_suit == self.trump {
                let current_winner_card = self.get_current_trick_winner();
                proof {
                    lemma_winner_trump_lead(
                        s.trump,
                        s.current_trick@,
                        s.trick_starter as int,
                        s.trick_size as int,
                    );
                }
                let winner_strength_v = trump_strength_of(current_winner_card % 8);
                let higher_trumps = filter_higher_trumps(hand, self.trump, winner_strength_v);
                if higher_trumps != 0 {
                    proof {
                        let w = lemma_nonzero_has_card(higher_trumps);
                        assert(trump_strength(rank_of(w)) > winner_strength(s)
                            && has_card(hand, ((s.trump * 8 + rank_of(w))) as u8));
                        lemma_mask_subset(higher_trumps, hand);
                    }
                    return higher_trumps;
                }
                proof {
                    assert(!has_higher_trump(s, hand)) by {
                        if has_higher_trump(s, hand) {
                            let r = choose|r: u8|
                                r < 8 && #[trigger] trump_strength(r) > winner_strength(s)
                                    && has_card(
                                    s.hands[s.current_player as int],
                                    (s.trump * 8 + r) as u8,
                                );
                            let idx = (s.trump * 8 + r) as u8;
                            assert(suit_of(idx) == s.trump && rank_of(idx) == r);
                            assert(has_card(higher_trumps, idx));
                            crate::cards::lemma_zero_board();
                            assert(!has_card(0u32, idx));
                        }
                    }
                }
                return hand_lead_suit;
            }
            return hand_lead_suit;
        }

        // Void of the lead suit: no duty to cut when the partner commands.
        let partner = (self.current_player + 2) % 4;
        let current_winner = self.get_current_trick_winner_player();

        if current_winner == partner {
            return hand;
        }

        let hand_trumps = if self.trump < 4 {
            hand & (0xFFu32 << ((self.trump as u32) * 8))
        } else {
            0
        };
        proof {
            if s.trump < 4 {
                assert forall|c: u8| c < 32 implies (#[trigger] has_card(hand_trumps, c)
                    <==> has_card(hand, c) && suit_of(c) == s.trump) by {
                    lemma_suit_mask_bit(hand, s.trump, c);
                }
            } else {
                crate::cards::lemma_zero_board();
            }
            lemma_mask_subset(hand_trumps, hand);
        }

        // An opponent commands: must cut, over-cutting when the trick is
        // already cut and a stronger trump is held.
        if hand_trumps != 0 {
            proof {
                lemma_best_seat_played(
                    s.trump,
                    s.current_trick@,
                    s.trick_starter as int,
                    s.trick_size as int,
                );
                assert(seat_played(s, current_winner as int));
            }
            let winner_card = self.current_trick[current_winner as usize];

            if winner_card / 8 == self.trump {
                let winner_strength_v = trump_strength_of(winner_card % 8);
                let higher_trumps = filter_higher_trumps(hand, self.trump, winner_strength_v);
                if higher_trumps != 0 {
                    proof {
                        let w = lemma_nonzero_has_card(higher_trumps);
                        lemma_mask_subset(higher_trumps, hand);
                    }
                    return higher_trumps;
                }
                proof {
                    assert(!has_higher_trump(s, hand)) by {
                        if has_higher_trump(s, hand) {
                            let r = choose|r: u8|
                                r < 8 && #[trigger] trump_strength(r) > winner_strength(s)
                                    && has_card(
                                    s.hands[s.current_player as int],
                                    (s.trump * 8 + r) as u8,
                                );
                            let idx = (s.trump * 8 + r) as u8;
                            assert(suit_of(idx) == s.trump && rank_of(idx) == r);
                            assert(has_card(higher_trumps, idx));
                            crate::cards::lemma_zero_board();
                            assert(!has_card(0u32, idx));
                        }
                    }
                }
                return hand_trumps;
            }
            return hand_trumps;
        }

        hand
    }
}

/// `a & b` keeps only cards of `a`.
pub proof fn lemma_mask_subset(a: u32, b: u32)
    requires
        forall|c: u8| c < 32 ==> (#[trigger] has_card(a, c) ==> has_card(b, c)),
    ensures
        a & b == a,
{
    assert forall|c: u8| c < 32 implies (#[trigger] has_card(a & b, c) <==> has_card(a, c)) by {
        lemma_bit_and(a, b, c);
    }
    lemma_mask_extensional(a & b, a);
}

pub proof fn lemma_mask_subset_of_self(a: u32)
    ensures
        a & a == a,
{
    crate::cards::lemma_mask_identities(a, a);
}

/// Bitboards with the same cards are equal.
pub proof fn lemma_mask_extensional(a: u32, b: u32)
    requires
        forall|c: u8| c < 32 ==> (#[trigger] has_card(a, c) <==> has_card(b, c)),
    ensures
        a == b,
{
    if a != b {
        let x = a ^ b;
        assert(x != 0) by (bit_vector)
            requires
                a != b,
                x == a ^ b,
        ;
        vstd::std_specs::bits::axiom_u32_trailing_zeros(x);
        let tz = vstd::std_specs::bits::u32_trailing_zeros(x);
        let c = tz as u8;
        assert(((a >> (c as u32)) & 1u32 == 1u32) != ((b >> (c as u32)) & 1u32 == 1u32))
            by (bit_vector)
            requires
                c < 32,
                (x >> (c as u32)) & 1u32 == 1u32,
                x == a ^ b,
        ;
        assert(has_card(a, c) <==> has_card(b, c));
        assert(false);
    }
}

/// Belote falls on this play: the first of the trump King and Queen is
/// played while the mover still holds the other and the mover's team has
/// not been credited yet.
pub open spec fn belote_pending(s: PlayingState, c: u8) -> bool {
    &&& s.trump < 4
    &&& suit_of(c) == s.trump
    &&& (rank_of(c) == RANK_Q || rank_of(c) == RANK_K)
    &&& !s.belote_scored[(s.current_player % 2) as int]
    &&& has_card(s.hands[s.current_player as int], (s.trump * 8 + (11 - rank_of(c))) as u8)
}

/// Credit Belote if it falls on playing `c`; otherwise leave `s` unchanged.
pub open spec fn belote_step(s: PlayingState, c: u8) -> PlayingState {
    if belote_pending(s, c) {
        let t = (s.current_player % 2) as int;
        PlayingState {
            points: spec_array_update(s.points, t, (s.points[t] + 20) as u16),
            belote_scored: spec_array_update(s.belote_scored, t, true),
            ..s
        }
    } else {
        s
    }
}

/// Move `c` from the mover's hand into the trick.
pub open spec fn place_step(s: PlayingState, c: u8) -> PlayingState {
    let cp = s.current_player as int;
    PlayingState {
        hands: spec_array_update(s.hands, cp, s.hands[cp] & !(1u32 << (c as u32))),
        current_trick: spec_array_update(s.current_trick, cp, c),
        trick_size: (s.trick_size + 1) as u8,
        ..s
    }
}

/// Pass the turn to the next seat.
pub open spec fn advance_step(s: PlayingState) -> PlayingState {
    PlayingState { current_player: ((s.current_player + 1) % 4) as u8, ..s }
}

/// Card points of a completed four-card trick.
pub open spec fn trick_points_full(trick: Seq<u8>, trump: u8) -> int {
    card_points(trick[0], trump) + card_points(trick[1], trump) + card_points(trick[2], trump)
        + card_points(trick[3], trump)
}

/// Resolve a completed trick: credit its points (plus the 10-de-der on the
/// last trick and the 90 Capot bonus on an eighth trick), archive it, and
/// hand the lead to the winner.
pub open spec fn resolve_step(s: PlayingState) -> PlayingState {
    let w = best_seat_upto(s.trump, s.current_trick@, s.trick_starter as int, 4);
    let team = w % 2;
    let pts = trick_points_full(s.current_trick@, s.trump) + if is_terminal_spec(s) {
        10int
    } else {
        0
    };
    let points1 = spec_array_update(s.points, team, (s.points[team] + pts) as u16);
    let tricks1 = spec_array_update(s.tricks_won, team, (s.tricks_won[team] + 1) as u8);
    let points2 = if tricks1[team] == 8 {
        spec_array_update(points1, team, (points1[team] + 90) as u16)
    } else {
        points1
    };
    PlayingState {
        points: points2,
        tricks_won: tricks1,
        last_trick: s.current_trick,
        last_trick_starter: s.trick_starter,
        last_trick_winner: Some(w as u8),
        current_trick: spec_array_update(
            spec_array_update(
                spec_array_update(spec_array_update(s.current_trick, 0, NO_CARD), 1, NO_CARD),
                2,
                NO_CARD,
            ),
            3,
            NO_CARD,
        ),
        trick_size: 0u8,
        trick_starter: w as u8,
        current_player: w as u8,
        ..s
    }
}

/// The full transition of one play: Belote first, then the card moves from
/// hand to trick, then either the turn passes or the trick resolves.
pub open spec fn play_card_spec(s: PlayingState, c: u8) -> PlayingState {
    let placed = place_step(belote_step(s, c), c);
    if s.trick_size == 3 {
        resolve_step(placed)
    } else {
        advance_step(placed)
    }
}

/// Exact card accounting of a position reachable from a full deal: every
/// one of the 32 cards is in a hand, in the trick, or in a completed trick.
pub open spec fn accounting(s: PlayingState) -> bool {
    trick_count_measure(s) == 32
}

pub proof fn lemma_hand_points_nonneg(h: u32, trump: u8, n: int)
    ensures
        0 <= hand_points_upto(h, trump, n),
    decreases n,
{
    if n > 0 {
        lemma_hand_points_nonneg(h, trump, n - 1);
    }
}

pub proof fn lemma_count_bounds(h: u32, n: int)
    ensures
        0 <= count_upto(h, n),
        count_upto(h, n) <= if n >= 0 {
            n
        } else {
            0
        },
    decreases n,
{
    if n > 0 {
        lemma_count_bounds(h, n - 1);
    }
}

proof fn lemma_hand_points_upto_clear(h: u32, trump: u8, c: u8, n: int)
    requires
        c < 32,
        n <= 32,
        has_card(h, c),
    ensures
        hand_points_upto(h & !(1u32 << (c as u32)), trump, n) == hand_points_upto(h, trump, n)
            - if (c as int) < n {
            card_points(c, trump) as int
        } else {
            0
        },
    decreases n,
{
    if n > 0 {
        lemma_hand_points_upto_clear(h, trump, c, n - 1);
        let j = (n - 1) as u8;
        lemma_bit_clear(h, c, j);
    }
}

proof fn lemma_count_upto_clear(h: u32, c: u8, n: int)
    requires
        c < 32,
        n <= 32,
        has_card(h, c),
    ensures
        count_upto(h & !(1u32 << (c as u32)), n) == count_upto(h, n) - if (c as int) < n {
            1int
        } else {
            0
        },
    decreases n,
{
    if n > 0 {
        lemma_count_upto_clear(h, c, n - 1);
        let j = (n - 1) as u8;
        lemma_bit_clear(h, c, j);
    }
}

/// A hand holding a card is non-empty.
pub proof fn lemma_has_card_nonzero(h: u32, c: u8)
    requires
        c < 32,
        has_card(h, c),
    ensures
        h != 0,
{
    crate::cards::lemma_zero_board();
    assert(!has_card(0u32, c));
}

/// Every single card is worth at most 20 points.
pub proof fn lemma_card_points_bound(c: u8, trump: u8)
    ensures
        0 <= card_points(c, trump) <= 20,
{
}

/// All balance terms besides the credited points are non-negative, so the
/// credited points of either team stay below the balance bound.
pub proof fn lemma_points_bounded(s: PlayingState)
    requires
        balance(s) <= FULL_BALANCE,
    ensures
        s.points[0] + s.points[1] <= FULL_BALANCE,
{
    lemma_hand_points_nonneg(s.hands[0], s.trump, 32);
    lemma_hand_points_nonneg(s.hands[1], s.trump, 32);
    lemma_hand_points_nonneg(s.hands[2], s.trump, 32);
    lemma_hand_points_nonneg(s.hands[3], s.trump, 32);
}

/// Playing a card marks exactly the mover's slot of the trick as played.
proof fn lemma_seat_played_insert(s: PlayingState, s2: PlayingState)
    requires
        s.trick_starter < 4,
        s.current_player < 4,
        s.trick_size < 4,
        s.current_player as int == seat_at(s, s.trick_size as int),
        s2.trick_starter == s.trick_starter,
        s2.trick_size == s.trick_size + 1,
    ensures
        seat_played(s2, s.current_player as int),
        !seat_played(s, s.current_player as int),
        forall|i: int|
            0 <= i < 4 && i != s.current_player as int ==> (#[trigger] seat_played(s2, i)
                <==> seat_played(s, i)),
{
    assert((s.current_player as int - s.trick_starter as int + 4) % 4 == s.trick_size as int);
    assert forall|i: int| 0 <= i < 4 && i != s.current_player as int implies (#[trigger]
    seat_played(s2, i) <==> seat_played(s, i)) by {
        assert((i - s.trick_starter + 4) % 4 != s.trick_size as int);
    }
}

/// Crediting Belote moves 20 points from the pending-bonus term into the
/// mover's team and changes nothing else.
pub proof fn lemma_belote_step_props(s: PlayingState, c: u8)
    requires
        wf(s),
        c < 32,
    ensures
        balance(belote_step(s, c)) == balance(s),
        trick_count_measure(belote_step(s, c)) == trick_count_measure(s),
        wf(belote_step(s, c)),
        belote_step(s, c).hands == s.hands,
        belote_step(s, c).current_trick == s.current_trick,
        belote_step(s, c).trick_size == s.trick_size,
        belote_step(s, c).trick_starter == s.trick_starter,
        belote_step(s, c).current_player == s.current_player,
        belote_step(s, c).trump == s.trump,
        belote_step(s, c).tricks_won == s.tricks_won,
{
    let b = belote_step(s, c);
    if belote_pending(s, c) {
        lemma_points_bounded(s);
        assert(trick_points(b) == trick_points(s));
    }
}

/// Facts about moving a card from the mover's hand into the trick: the
/// card's points move from the hand term to the trick term, the card count
/// is unchanged, and every structural invariant survives.
pub proof fn lemma_place_step_props(s: PlayingState, c: u8)
    requires
        wf(s),
        c < 32,
        has_card(s.hands[s.current_player as int], c),
    ensures
        ({
            let p = place_step(s, c);
            &&& balance(p) == balance(s) - (if is_terminal_spec(p) {
                10int
            } else {
                0
            })
            &&& trick_count_measure(p) == trick_count_measure(s)
            &&& !is_terminal_spec(s)
            &&& p.trick_size == s.trick_size + 1
            &&& p.trick_starter == s.trick_starter
            &&& p.current_player == s.current_player
            &&& p.trump == s.trump
            &&& p.tricks_won == s.tricks_won
            &&& p.points == s.points
            &&& p.belote_scored == s.belote_scored
            &&& seat_played(p, s.current_player as int)
            &&& (forall|j: int| 0 <= j < 4 ==> !has_card(#[trigger] p.hands[j], c))
            &&& (forall|i: int|
                0 <= i < 4 ==> (#[trigger] seat_played(p, i) <==> p.current_trick[i] != NO_CARD))
            &&& (forall|i: int| 0 <= i < 4 && #[trigger] seat_played(p, i) ==> p.current_trick[i] < 32)
            &&& (forall|i: int, j: int|
                0 <= i < 4 && 0 <= j < 4 && i != j ==> #[trigger] p.hands[i] & #[trigger] p.hands[j]
                    == 0)
            &&& (forall|i: int, j: int|
                #![trigger seat_played(p, i), p.hands[j]]
                0 <= i < 4 && 0 <= j < 4 && seat_played(p, i) ==> !has_card(
                    p.hands[j],
                    p.current_trick[i],
                ))
            &&& (forall|i: int, j: int|
                0 <= i < 4 && 0 <= j < 4 && i != j && #[trigger] seat_played(p, i)
                    && #[trigger] seat_played(p, j) ==> p.current_trick[i] != p.current_trick[j])
        }),
{
    let p = place_step(s, c);
    let cp = s.current_player as int;
    let hand = s.hands[cp];
    let cleared = hand & !(1u32 << (c as u32));
    lemma_seat_played_insert(s, p);
    lemma_has_card_nonzero(hand, c);

    // The mover's hand loses exactly card `c`.
    lemma_hand_points_upto_clear(hand, s.trump, c, 32);
    lemma_count_upto_clear(hand, c, 32);
    assert forall|x: u8| x < 32 implies (#[trigger] has_card(cleared, x) <==> has_card(hand, x)
        && x != c) by {
        lemma_bit_clear(hand, c, x);
    }

    // Disjointness survives shrinking one hand.
    assert forall|i: int, j: int| 0 <= i < 4 && 0 <= j < 4 && i != j implies #[trigger] p.hands[i]
        & #[trigger] p.hands[j] == 0 by {
        if i == cp {
            crate::cards::lemma_and_mask_disjoint(s.hands[cp], s.hands[j], !(1u32 << (c as u32)));
        } else if j == cp {
            crate::cards::lemma_and_mask_disjoint(s.hands[cp], s.hands[i], !(1u32 << (c as u32)));
        }
    }

    // The played card is in nobody's hand any more.
    assert forall|j: int| 0 <= j < 4 implies !has_card(#[trigger] p.hands[j], c) by {
        if j != cp {
            lemma_disjoint_bit(s.hands[cp], s.hands[j], c);
        }
    }

    // Trick cards, old and new, are outside every hand.
    assert forall|i: int, j: int|
        #![trigger seat_played(p, i), p.hands[j]]
        0 <= i < 4 && 0 <= j < 4 && seat_played(p, i) implies !has_card(
        p.hands[j],
        p.current_trick[i],
    ) by {
        if i == cp {
            if j != cp {
                lemma_disjoint_bit(s.hands[cp], s.hands[j], c);
            }
        } else {
            assert(seat_played(s, i));
            assert(!has_card(s.hands[j], s.current_trick[i]));
        }
    }

    // The new card differs from every card already in the trick.
    assert forall|i: int, j: int|
        0 <= i < 4 && 0 <= j < 4 && i != j && #[trigger] seat_played(p, i) && #[trigger]
    seat_played(p, j) implies p.current_trick[i] != p.current_trick[j] by {
        if i == cp {
            assert(!has_card(s.hands[cp], s.current_trick[j]));
        } else if j == cp {
            assert(!has_card(s.hands[cp], s.current_trick[i]));
        }
    }

    // The card's points move from the hand term to the trick term.
    assert(seat_trick_points(p, cp) == card_points(c, s.trump) as int);
    assert forall|i: int| 0 <= i < 4 && i != cp implies seat_trick_points(p, i)
        == seat_trick_points(s, i) by {
    }
    assert(seat_trick_points(s, cp) == 0);
    assert(trick_points(p) == trick_points(s) + card_points(c, s.trump));
}

/// Precondition of trick resolution: a structurally sound position whose
/// trick holds all four cards.
pub open spec fn resolve_pre(t: PlayingState) -> bool {
    &&& t.trump < 6
    &&& t.trick_starter < 4
    &&& t.current_player < 4
    &&& t.trick_size == 4
    &&& (forall|i: int| 0 <= i < 4 ==> #[trigger] t.current_trick[i] < 32)
    &&& (forall|i: int, j: int|
        0 <= i < 4 && 0 <= j < 4 && i != j ==> #[trigger] t.hands[i] & #[trigger] t.hands[j] == 0)
    &&& balance(t) + (if is_terminal_spec(t) {
        10int
    } else {
        0
    }) <= FULL_BALANCE
    &&& trick_count_measure(t) <= 32
}

/// Resolution credits exactly the completed trick's points together with
/// the 10-de-der and Capot bonuses, and restores well-formedness.
pub proof fn lemma_resolve_step_props(t: PlayingState)
    requires
        resolve_pre(t),
    ensures
        ({
            let r = resolve_step(t);
            &&& wf(r)
            &&& balance(r) == balance(t) + (if is_terminal_spec(t) {
                10int
            } else {
                0
            })
            &&& trick_count_measure(r) == trick_count_measure(t)
            &&& r.hands == t.hands
            &&& r.trump == t.trump
            &&& r.points[0] + r.points[1] == t.points[0] + t.points[1] + trick_points_full(
                t.current_trick@,
                t.trump,
            ) + (if is_terminal_spec(t) {
                10int
            } else {
                0
            }) + (if resolve_step(t).tricks_won[0] == 8 || resolve_step(t).tricks_won[1] == 8 {
                90int
            } else {
                0
            })
        }),
{
    let r = resolve_step(t);
    let w = best_seat_upto(t.trump, t.current_trick@, t.trick_starter as int, 4);
    let team = w % 2;
    lemma_best_seat_played(t.trump, t.current_trick@, t.trick_starter as int, 4);
    lemma_points_bounded(t);
    lemma_count_bounds(t.hands[0], 32);
    lemma_count_bounds(t.hands[1], 32);
    lemma_count_bounds(t.hands[2], 32);
    lemma_count_bounds(t.hands[3], 32);
    assert(t.tricks_won[0] + t.tricks_won[1] <= 7);

    assert(forall|i: int| 0 <= i < 4 ==> #[trigger] seat_played(t, i));
    assert(trick_points(t) == trick_points_full(t.current_trick@, t.trump));
    lemma_card_points_bound(t.current_trick[0], t.trump);
    lemma_card_points_bound(t.current_trick[1], t.trump);
    lemma_card_points_bound(t.current_trick[2], t.trump);
    lemma_card_points_bound(t.current_trick[3], t.trump);

    assert(forall|i: int| 0 <= i < 4 ==> !seat_played(r, i));
    assert(trick_points(r) == 0);
    assert(is_terminal_spec(r) == is_terminal_spec(t));
}

/// Main transition facts: one play keeps the position well formed, keeps
/// the card count measure, never creates points out of thin air, conserves
/// the point balance exactly on fully accounted positions, and leaves the
/// played card in nobody's hand.
#[verifier::rlimit(40)]
pub proof fn lemma_play_card_spec_props(s: PlayingState, c: u8)
    requires
        wf(s),
        c < 32,
        has_card(s.hands[s.current_player as int], c),
    ensures
        ({
            let n = play_card_spec(s, c);
            &&& wf(n)
            &&& trick_count_measure(n) == trick_count_measure(s)
            &&& balance(n) <= balance(s)
            &&& (accounting(s) ==> balance(n) == balance(s) && accounting(n))
            &&& (forall|j: int| 0 <= j < 4 ==> !has_card(#[trigger] n.hands[j], c))
            &&& n.trump == s.trump
        }),
{
    let b = belote_step(s, c);
    let p = place_step(b, c);
    let n = play_card_spec(s, c);
    lemma_belote_step_props(s, c);
    lemma_place_step_props(b, c);
    if s.trick_size == 3 {
        assert(resolve_pre(p));
        lemma_resolve_step_props(p);
        assert(n == resolve_step(p));
        assert(balance(n) == balance(s));
    } else {
        let a = advance_step(p);
        assert(n == a);
        assert(balance(a) == balance(p));
        assert(trick_points(a) == trick_points(p));
        assert(trick_count_measure(a) == trick_count_measure(p));
        // Structural sanity of the advanced position.
        assert(a.current_player as int == seat_at(a, a.trick_size as int));
        assert(wf(a));
        if accounting(s) {
            // A fully accounted position cannot run out of cards in the
            // middle of a trick, so the round cannot end here.
            if is_terminal_spec(p) {
                lemma_zero_count(32);
                assert(total_cards(p) == p.trick_size);
                assert(4 * (p.tricks_won[0] + p.tricks_won[1]) + p.trick_size as int == 32);
                assert(false);
            }
        }
    }
}

/// A legal card, once played, is gone: the mover's own following
/// `legal_moves` can never offer it again, at this or any later seat.
pub proof fn lemma_played_card_not_legal(s: PlayingState, c: u8)
    requires
        wf(s),
        card_legal(s, c),
    ensures
        !card_legal(play_card_spec(s, c), c),
{
    lemma_play_card_spec_props(s, c);
}

impl PlayingState {
    /// Replace one hand wholesale (used while assembling a deal).  A seat
    /// out of range leaves the position unchanged.
    pub fn set_hand(&mut self, player: u8, cards: u32)
        requires
            player < 4 ==> wf(
                (PlayingState {
                    hands: spec_array_update(old(self).hands, player as int, cards),
                    ..*old(self)
                }),
            ),
        ensures
            *final(self) == if player < 4 {
                (PlayingState {
                    hands: spec_array_update(old(self).hands, player as int, cards),
                    ..*old(self)
                })
            } else {
                *old(self)
            },
            player < 4 ==> wf(*final(self)),
    {
        if player < 4 {
            self.hands[player as usize] = cards;
            proof {
                assert(*self =~= (PlayingState {
                    hands: spec_array_update(old(self).hands, player as int, cards),
                    ..*old(self)
                }));
            }
        }
    }

    /// Apply a card assumed legal: credit Belote if it falls, move the card
    /// from the mover's hand into the trick, then pass the turn or resolve
    /// the completed trick.
    pub fn play_card(&mut self, card: u8)
        requires
            wf(*old(self)),
            card < 32,
            has_card(old(self).hands[old(self).current_player as int], card),
        ensures
            *final(self) == play_card_spec(*old(self), card),
            wf(*final(self)),
            trick_count_measure(*final(self)) == trick_count_measure(*old(self)),
            balance(*final(self)) <= balance(*old(self)),
            accounting(*old(self)) ==> balance(*final(self)) == balance(*old(self)) && accounting(
                *final(self),
            ),
    {
        proof {
            lemma_play_card_spec_props(*old(self), card);
            lemma_belote_step_props(*old(self), card);
        }
        let ghost s0 = *old(self);

        // Belote: the first of the trump King and Queen played while the
        // other is still in the mover's hand earns the team 20 points once.
        if self.trump < 4 {
            let suit = card / 8;
            if suit == self.trump {
                let rank = card % 8;
                if rank == 5 || rank == 6 {
                    let team = (self.current_player % 2) as usize;
                    if !self.belote_scored[team] {
                        let other_rank: u8 = if rank == 5 {
                            6
                        } else {
                            5
                        };
                        let other_card = self.trump * 8 + other_rank;
                        if holds(self.hands[self.current_player as usize], other_card) {
                            proof {
                                lemma_points_bounded(s0);
                            }
                            self.points[team] = self.points[team] + 20;
                            self.belote_scored[team] = true;
                        }
                    }
                }
            }
        }
        proof {
            assert(*self =~= belote_step(s0, card));
        }
        let ghost b = belote_step(s0, card);

        // Move the card from the hand into the trick.
        let cp = self.current_player as usize;
        self.hands[cp] = self.hands[cp] & !(1u32 << (card as u32));
        self.current_trick[cp] = card;
        self.trick_size = self.trick_size + 1;
        proof {
            assert(*self =~= place_step(b, card));
            lemma_place_step_props(b, card);
        }

        if self.trick_size == 4 {
            proof {
                assert(resolve_pre(place_step(b, card)));
            }
            self.resolve_trick();
        } else {
            self.current_player = (self.current_player + 1) % 4;
            proof {
                assert(*self =~= advance_step(place_step(b, card)));
            }
        }
    }

    /// Resolve the completed four-card trick: find the winner, credit the
    /// trick's points plus the 10-de-der on the last trick and the Capot
    /// bonus on an eighth trick, archive the trick and hand over the lead.
    fn resolve_trick(&mut self)
        requires
            resolve_pre(*old(self)),
        ensures
            *final(self) == resolve_step(*old(self)),
            wf(*final(self)),
    {
        proof {
            lemma_resolve_step_props(*old(self));
            assert(forall|i: int| 0 <= i < 4 ==> #[trigger] seat_played(*old(self), i));
        }
        let ghost t = *old(self);
        let winner = self.get_current_trick_winner_player();
        let winning_team = (winner % 2) as usize;

        proof {
            lemma_card_points_bound(t.current_trick[0], t.trump);
            lemma_card_points_bound(t.current_trick[1], t.trump);
            lemma_card_points_bound(t.current_trick[2], t.trump);
            lemma_card_points_bound(t.current_trick[3], t.trump);
        }
        let mut points: u16 = card_points_of(self.current_trick[0], self.trump);
        points = points + card_points_of(self.current_trick[1], self.trump);
        points = points + card_points_of(self.current_trick[2], self.trump);
        points = points + card_points_of(self.current_trick[3], self.trump);

        // 10-de-der: the last trick of the round is worth ten more.
        if self.hands[0] == 0 && self.hands[1] == 0 && self.hands[2] == 0 && self.hands[3] == 0 {
            points = points + 10;
        }

        proof {
            lemma_points_bounded(t);
        }
        self.points[winning_team] = self.points[winning_team] + points;

        self.last_trick = self.current_trick;
        self.last_trick_starter = self.trick_starter;
        self.last_trick_winner = Some(winner);

        self.current_trick[0] = NO_CARD;
        self.current_trick[1] = NO_CARD;
        self.current_trick[2] = NO_CARD;
        self.current_trick[3] = NO_CARD;
        self.trick_size = 0;
        self.trick_starter = winner;
        self.current_player = winner;

        proof {
            lemma_count_bounds(t.hands[0], 32);
            lemma_count_bounds(t.hands[1], 32);
            lemma_count_bounds(t.hands[2], 32);
            lemma_count_bounds(t.hands[3], 32);
        }
        self.tricks_won[winning_team] = self.tricks_won[winning_team] + 1;

        // Capot: the eighth trick of one team is worth ninety more.
        if self.tricks_won[winning_team] == 8 {
            self.points[winning_team] = self.points[winning_team] + 90;
        }

        proof {
            assert(*self =~= resolve_step(t));
        }
    }
}

/// Completing a trick raises the two teams' combined score by exactly the
/// card points of the completed trick, plus 10 when it ends the round, plus
/// 90 when it is a team's eighth, plus 20 when Belote fell on this play.
pub proof fn lemma_completed_trick_score_delta(s: PlayingState, c: u8)
    requires
        wf(s),
        c < 32,
        has_card(s.hands[s.current_player as int], c),
        s.trick_size == 3,
    ensures
        ({
            let n = play_card_spec(s, c);
            let completed = place_step(belote_step(s, c), c).current_trick;
            n.points[0] + n.points[1] == s.points[0] + s.points[1] + trick_points_full(
                completed@,
                s.trump,
            ) + (if is_terminal_spec(n) {
                10int
            } else {
                0
            }) + (if n.tricks_won[0] == 8 || n.tricks_won[1] == 8 {
                90int
            } else {
                0
            }) + (if belote_pending(s, c) {
                20int
            } else {
                0
            })
        }),
{
    let b = belote_step(s, c);
    let p = place_step(b, c);
    lemma_belote_step_props(s, c);
    lemma_place_step_props(b, c);
    assert(resolve_pre(p));
    lemma_resolve_step_props(p);
    if belote_pending(s, c) {
        lemma_points_bounded(s);
    }
}

/// The teams' trick tallies always sum to the number of completed tricks:
/// the tricks that consumed the cards now out of play.
pub proof fn lemma_tricks_match_completed(s: PlayingState)
    requires
        wf(s),
        accounting(s),
    ensures
        s.tricks_won[0] + s.tricks_won[1] == (32 - total_cards(s)) / 4,
{
}

/// Both bitboards split their union's points and cards between them when
/// they are disjoint.
pub proof fn lemma_union_split(a: u32, b: u32, trump: u8, n: int)
    requires
        a & b == 0,
        n <= 32,
    ensures
        hand_points_upto(a | b, trump, n) == hand_points_upto(a, trump, n) + hand_points_upto(
            b,
            trump,
            n,
        ),
        count_upto(a | b, n) == count_upto(a, n) + count_upto(b, n),
    decreases n,
{
    if n > 0 {
        lemma_union_split(a, b, trump, n - 1);
        let j = (n - 1) as u8;
        lemma_bit_or(a, b, j);
        lemma_disjoint_bit(a, b, j);
    }
}

proof fn lemma_full_deck_has_all()
    by (bit_vector)
    ensures
        forall|c: u8| c < 32 ==> #[trigger] has_card(0xFFFF_FFFFu32, c),
{
}

/// The full deck carries 152 card points and 32 cards under any of the four
/// trump suits.
pub proof fn lemma_full_deck_totals(trump: u8)
    requires
        trump < 4,
    ensures
        hand_points(crate::cards::FULL_DECK, trump) == 152,
        hand_size(crate::cards::FULL_DECK) == 32,
{
    lemma_full_deck_has_all();
    reveal_with_fuel(hand_points_upto, 33);
    reveal_with_fuel(count_upto, 33);
    if trump == 0 {
        assert(hand_points_upto(0xFFFF_FFFFu32, 0, 32) == 152);
    } else if trump == 1 {
        assert(hand_points_upto(0xFFFF_FFFFu32, 1, 32) == 152);
    } else if trump == 2 {
        assert(hand_points_upto(0xFFFF_FFFFu32, 2, 32) == 152);
    } else {
        assert(hand_points_upto(0xFFFF_FFFFu32, 3, 32) == 152);
    }
    assert(count_upto(0xFFFF_FFFFu32, 32) == 32);
}

/// A bitboard holds at most the points and cards of any bitboard that
/// contains it.
proof fn lemma_hand_subset_bounds(a: u32, b: u32, trump: u8, n: int)
    requires
        n <= 32,
        forall|c: u8| c < 32 ==> (#[trigger] has_card(a, c) ==> has_card(b, c)),
    ensures
        hand_points_upto(a, trump, n) <= hand_points_upto(b, trump, n),
        count_upto(a, n) <= count_upto(b, n),
    decreases n,
{
    if n > 0 {
        lemma_hand_subset_bounds(a, b, trump, n - 1);
        let c = (n - 1) as u8;
        assert(has_card(a, c) ==> has_card(b, c));
        lemma_card_points_bound(c, trump);
    }
}

/// Under the No-Trump and All-Trump encodings every card counts plain, so
/// the full deck carries at most its 152 points either way.
proof fn lemma_full_deck_cap(trump: u8)
    requires
        trump < 6,
    ensures
        hand_points(crate::cards::FULL_DECK, trump) <= 152,
{
    if trump < 4 {
        lemma_full_deck_totals(trump);
    } else {
        lemma_full_deck_has_all();
        reveal_with_fuel(hand_points_upto, 33);
        assert forall|c: u8| c < 32 implies #[trigger] card_points(c, trump) == crate::cards::plain_points(
            rank_of(c),
        ) by {
            assert(suit_of(c) < 4);
        }
        assert(hand_points_upto(0xFFFF_FFFFu32, trump, 32) == 120);
    }
}

/// Four pairwise disjoint hands with nothing yet played form a well-formed
/// position, whatever part of the deck they cover.
pub proof fn lemma_initial_state(s: PlayingState)
    requires
        s.trump < 6,
        s.current_player < 4,
        s.trick_starter == s.current_player,
        s.trick_size == 0,
        s.points[0] == 0 && s.points[1] == 0,
        s.tricks_won[0] == 0 && s.tricks_won[1] == 0,
        !s.belote_scored[0] && !s.belote_scored[1],
        forall|i: int| 0 <= i < 4 ==> s.current_trick[i] == NO_CARD,
        forall|i: int, j: int|
            0 <= i < 4 && 0 <= j < 4 && i != j ==> s.hands[i] & s.hands[j] == 0,
    ensures
        wf(s),
{
    let a0 = s.hands[0];
    let a1 = s.hands[1];
    let a2 = s.hands[2];
    let a3 = s.hands[3];
    let h01 = a0 | a1;
    let h012 = h01 | a2;
    let u = h012 | a3;
    assert(h01 & a2 == 0 && h012 & a3 == 0) by (bit_vector)
        requires
            a0 & a2 == 0,
            a1 & a2 == 0,
            a0 & a3 == 0,
            a1 & a3 == 0,
            a2 & a3 == 0,
            h01 == a0 | a1,
            h012 == h01 | a2,
    ;
    lemma_union_split(a0, a1, s.trump, 32);
    lemma_union_split(h01, a2, s.trump, 32);
    lemma_union_split(h012, a3, s.trump, 32);
    lemma_full_deck_has_all();
    assert forall|c: u8| c < 32 implies (#[trigger] has_card(u, c) ==> has_card(
        crate::cards::FULL_DECK,
        c,
    )) by {
    }
    lemma_hand_subset_bounds(u, crate::cards::FULL_DECK, s.trump, 32);
    lemma_full_deck_cap(s.trump);
    lemma_count_bounds(crate::cards::FULL_DECK, 32);
    assert(count_upto(crate::cards::FULL_DECK, 32) <= 32);
}

/// A freshly dealt round — four pairwise disjoint hands covering the whole
/// deck, nothing played yet — is well formed, fully accounted, and starts
/// with the full point balance in play.
pub proof fn lemma_fresh_deal(s: PlayingState)
    requires
        s.trump < 4,
        s.current_player < 4,
        s.trick_starter == s.current_player,
        s.trick_size == 0,
        s.points[0] == 0 && s.points[1] == 0,
        s.tricks_won[0] == 0 && s.tricks_won[1] == 0,
        !s.belote_scored[0] && !s.belote_scored[1],
        forall|i: int| 0 <= i < 4 ==> s.current_trick[i] == NO_CARD,
        forall|i: int, j: int|
            0 <= i < 4 && 0 <= j < 4 && i != j ==> s.hands[i] & s.hands[j] == 0,
        s.hands[0] | s.hands[1] | s.hands[2] | s.hands[3] == crate::cards::FULL_DECK,
    ensures
        wf(s),
        accounting(s),
        balance(s) == FULL_BALANCE,
{
    let a0 = s.hands[0];
    let a1 = s.hands[1];
    let a2 = s.hands[2];
    let a3 = s.hands[3];
    let h01 = a0 | a1;
    let h012 = h01 | a2;
    assert(h01 & a2 == 0 && h012 & a3 == 0) by (bit_vector)
        requires
            a0 & a2 == 0,
            a1 & a2 == 0,
            a0 & a3 == 0,
            a1 & a3 == 0,
            a2 & a3 == 0,
            h01 == a0 | a1,
            h012 == h01 | a2,
    ;
    lemma_union_split(a0, a1, s.trump, 32);
    lemma_union_split(h01, a2, s.trump, 32);
    lemma_union_split(h012, a3, s.trump, 32);
    lemma_full_deck_totals(s.trump);
    assert(is_terminal_spec(s) == false) by {
        if s.hands[0] == 0 && s.hands[1] == 0 && s.hands[2] == 0 && s.hands[3] == 0 {
            lemma_zero_count(32);
        }
    }
}

/// On a terminal, fully accounted round the two teams' points sum to the
/// 162 attainable base points, plus 20 for each Belote credited, plus 90
/// when one team took all eight tricks.
pub proof fn lemma_terminal_score(s: PlayingState)
    requires
        wf(s),
        accounting(s),
        balance(s) == FULL_BALANCE,
        is_terminal_spec(s),
    ensures
        s.points[0] + s.points[1] == 162 + 20 * ((if s.belote_scored[0] {
            1int
        } else {
            0
        }) + (if s.belote_scored[1] {
            1int
        } else {
            0
        })) + (if s.tricks_won[0] == 8 || s.tricks_won[1] == 8 {
            90int
        } else {
            0
        }),
{
    lemma_zero_count(32);
    lemma_zero_hand_points(s.trump, 32);
    assert(total_cards(s) == s.trick_size);
    assert(s.trick_size == 0);
    assert(trick_points(s) == 0);
}

impl PlayingState {
    /// Sum of the point values of the cards of `h` under this trump.
    fn hand_points_of(&self, h: u32) -> (p: u16)
        ensures
            p as int == hand_points(h, self.trump),
            p <= 640,
    {
        proof {
            lemma_hand_points_nonneg(h, self.trump, 32);
            lemma_hand_points_small(h, self.trump, 32);
        }
        let mut p: u16 = 0;
        let mut c: u8 = 0;
        while c < 32
            invariant
                c <= 32,
                p as int == hand_points_upto(h, self.trump, c as int),
                p <= 20 * c as int,
            decreases 32 - c,
        {
            proof {
                lemma_card_points_bound(c, self.trump);
            }
            if holds(h, c) {
                p = p + card_points_of(c, self.trump);
            }
            c = c + 1;
        }
        p
    }

    /// Decide well-formedness at run time, for positions assembled from
    /// unchecked parts.
    pub fn is_well_formed(&self) -> (b: bool)
        ensures
            b == wf(*self),
    {
        if !(self.trump < 6 && self.current_player < 4 && self.trick_starter < 4 && self.trick_size < 4) {
            return false;
        }
        if self.current_player as usize != ((self.trick_starter + self.trick_size) % 4) as usize {
            return false;
        }
        // Trick slots: played seats hold a card, others the sentinel.
        let mut i: u8 = 0;
        while i < 4
            invariant
                i <= 4,
                self.trick_starter < 4,
                self.trick_size < 4,
                forall|x: int|
                    0 <= x < i ==> ((seat_played(*self, x) <==> self.current_trick[x] != NO_CARD) && (
                    seat_played(*self, x) ==> self.current_trick[x] < 32)),
            decreases 4 - i,
        {
            let played = (i + 4 - self.trick_starter) % 4 < self.trick_size;
            proof {
                assert(played == seat_played(*self, i as int));
            }
            if played {
                if self.current_trick[i as usize] >= 32 {
                    proof {
                        if wf(*self) {
                            assert(self.current_trick[i as int] < 32);
                            assert(false);
                        }
                    }
                    return false;
                }
            } else {
                if self.current_trick[i as usize] != NO_CARD {
                    proof {
                        if wf(*self) {
                            assert(seat_played(*self, i as int) <==> self.current_trick[i as int]
                                != NO_CARD);
                            assert(false);
                        }
                    }
                    return false;
                }
            }
            i = i + 1;
        }
        // Hands pairwise disjoint.
        let mut a: u8 = 0;
        while a < 4
            invariant
                a <= 4,
                forall|x: int, y: int|
                    0 <= x < a && 0 <= y < 4 && x != y ==> self.hands[x] & self.hands[y] == 0,
            decreases 4 - a,
        {
            let mut b2: u8 = 0;
            while b2 < 4
                invariant
                    a < 4,
                    b2 <= 4,
                    forall|x: int, y: int|
                        0 <= x < a && 0 <= y < 4 && x != y ==> self.hands[x] & self.hands[y] == 0,
                    forall|y: int| 0 <= y < b2 && y != a ==> self.hands[a as int] & self.hands[y] == 0,
                decreases 4 - b2,
            {
                if b2 != a {
                    if self.hands[a as usize] & self.hands[b2 as usize] != 0 {
                        proof {
                            if wf(*self) {
                                assert(self.hands[a as int] & self.hands[b2 as int] == 0);
                                assert(false);
                            }
                        }
                        return false;
                    }
                }
                b2 = b2 + 1;
            }
            proof {
                assert forall|x: int, y: int|
                    0 <= x < a + 1 && 0 <= y < 4 && x != y implies self.hands[x] & self.hands[y]
                    == 0 by {
                    if x == a as int {
                    } else if y == a as int {
                        crate::cards::lemma_mask_identities(self.hands[x], self.hands[y]);
                    }
                }
            }
            a = a + 1;
        }
        // Trick cards outside every hand, and pairwise distinct.
        let mut i2: u8 = 0;
        while i2 < 4
            invariant
                i2 <= 4,
                self.trick_starter < 4,
                self.trick_size < 4,
                forall|x: int|
                    0 <= x < 4 ==> ((seat_played(*self, x) <==> self.current_trick[x] != NO_CARD) && (
                    seat_played(*self, x) ==> self.current_trick[x] < 32)),
                forall|x: int, y: int|
                    0 <= x < i2 && 0 <= y < 4 && seat_played(*self, x) ==> !has_card(
                        self.hands[y],
                        self.current_trick[x],
                    ),
                forall|x: int, y: int|
                    0 <= x < i2 && 0 <= y < 4 && x != y && seat_played(*self, x) && seat_played(*self, y)
                        ==> self.current_trick[x] != self.current_trick[y],
            decreases 4 - i2,
        {
            let played = (i2 + 4 - self.trick_starter) % 4 < self.trick_size;
            proof {
                assert(played == seat_played(*self, i2 as int));
            }
            if played {
                let card = self.current_trick[i2 as usize];
                let mut y: u8 = 0;
                while y < 4
                    invariant
                        y <= 4,
                        i2 < 4,
                        card == self.current_trick[i2 as int],
                        card < 32,
                        seat_played(*self, i2 as int),
                        forall|z: int| 0 <= z < y ==> !has_card(self.hands[z], card),
                    decreases 4 - y,
                {
                    if holds(self.hands[y as usize], card) {
                        proof {
                            if wf(*self) {
                                assert(!has_card(self.hands[y as int], self.current_trick[i2 as int]));
                                assert(false);
                            }
                        }
                        return false;
                    }
                    y = y + 1;
                }
                let mut y2: u8 = 0;
                while y2 < 4
                    invariant
                        y2 <= 4,
                        i2 < 4,
                        self.trick_starter < 4,
                        self.trick_size < 4,
                        card == self.current_trick[i2 as int],
                        seat_played(*self, i2 as int),
                        forall|x: int|
                            0 <= x < 4 ==> ((seat_played(*self, x) <==> self.current_trick[x] != NO_CARD)
                                && (seat_played(*self, x) ==> self.current_trick[x] < 32)),
                        forall|z: int|
                            0 <= z < y2 && z != i2 && seat_played(*self, z) ==> self.current_trick[z]
                                != card,
                    decreases 4 - y2,
                {
                    if y2 != i2 {
                        let played2 = (y2 + 4 - self.trick_starter) % 4 < self.trick_size;
                        proof {
                            assert(played2 == seat_played(*self, y2 as int));
                        }
                        if played2 && self.current_trick[y2 as usize] == card {
                            proof {
                                if wf(*self) {
                                    let yy = y2 as int;
                                    assert(self.current_trick[i2 as int] != self.current_trick[yy]);
                                    assert(false);
                                }
                            }
                            return false;
                        }
                    }
                    y2 = y2 + 1;
                }
            }
            i2 = i2 + 1;
        }
        // Point balance and card-count bounds.
        let hp: u32 = self.hand_points_of(self.hands[0]) as u32 + self.hand_points_of(self.hands[1]) as u32
            + self.hand_points_of(self.hands[2]) as u32 + self.hand_points_of(self.hands[3]) as u32;
        let mut tp: u32 = 0;
        let mut i3: u8 = 0;
        while i3 < 4
            invariant
                i3 <= 4,
                self.trick_starter < 4,
                self.trick_size < 4,
                forall|x: int|
                    0 <= x < 4 ==> ((seat_played(*self, x) <==> self.current_trick[x] != NO_CARD) && (
                    seat_played(*self, x) ==> self.current_trick[x] < 32)),
                tp as int == seat_points_upto(*self, i3 as int),
                tp <= 20 * i3 as int,
            decreases 4 - i3,
        {
            let played = (i3 + 4 - self.trick_starter) % 4 < self.trick_size;
            proof {
                assert(played == seat_played(*self, i3 as int));
                lemma_card_points_bound(self.current_trick[i3 as int], self.trump);
            }
            if played {
                tp = tp + card_points_of(self.current_trick[i3 as usize], self.trump) as u32;
            }
            i3 = i3 + 1;
        }
        proof {
            reveal_with_fuel(seat_points_upto, 5);
            assert(tp as int == trick_points(*self));
        }
        let belote_pending_count: u32 = (if self.belote_scored[0] {
            0
        } else {
            1
        }) + (if self.belote_scored[1] {
            0
        } else {
            1
        });
        let terminal = self.is_terminal();
        let capot = self.tricks_won[0] < 8 && self.tricks_won[1] < 8;
        let bal: u64 = self.points[0] as u64 + self.points[1] as u64 + hp as u64 + tp as u64 + 20
            * belote_pending_count as u64 + (if terminal {
            0
        } else {
            10
        }) + (if capot {
            90
        } else {
            0
        });
        proof {
            assert(bal as int == balance(*self));
        }
        if bal > FULL_BALANCE as u64 {
            return false;
        }
        let total: u32 = count_cards_of(self.hands[0]) as u32 + count_cards_of(self.hands[1]) as u32
            + count_cards_of(self.hands[2]) as u32 + count_cards_of(self.hands[3]) as u32
            + self.trick_size as u32;
        proof {
            assert(4 * (self.tricks_won[0] as u32 + self.tricks_won[1] as u32) + total
                == trick_count_measure(*self));
        }
        if 4 * (self.tricks_won[0] as u32 + self.tricks_won[1] as u32) + total > 32 {
            return false;
        }
        proof {
            assert(wf(*self));
        }
        true
    }
}

/// Trick points of the first `n` seats.
pub open spec fn seat_points_upto(s: PlayingState, n: int) -> int
    decreases n,
{
    if n <= 0 {
        0
    } else {
        seat_points_upto(s, n - 1) + seat_trick_points(s, n - 1)
    }
}

/// Number of cards of `h`, executably.
fn count_cards_of(h: u32) -> (n: u8)
    ensures
        n as int == hand_size(h),
        n <= 32,
{
    proof {
        lemma_count_bounds(h, 32);
    }
    let mut n: u8 = 0;
    let mut c: u8 = 0;
    while c < 32
        invariant
            c <= 32,
            n as int == count_upto(h, c as int),
            n <= c,
        decreases 32 - c,
    {
        proof {
            lemma_count_bounds(h, c as int);
        }
        if holds(h, c) {
            n = n + 1;
        }
        c = c + 1;
    }
    n
}

/// Cards are worth at most 20 points each, so a hand at most 640.
proof fn lemma_hand_points_small(h: u32, trump: u8, n: int)
    ensures
        hand_points_upto(h, trump, n) <= 20 * (if n >= 0 {
            n
        } else {
            0
        }),
    decreases n,
{
    if n > 0 {
        lemma_hand_points_small(h, trump, n - 1);
        lemma_card_points_bound((n - 1) as u8, trump);
    }
}

/// A hand holding a card is not empty by count.
pub proof fn lemma_count_at_least_one(h: u32, c: u8, n: int)
    requires
        c < 32,
        has_card(h, c),
    ensures
        count_upto(h, n) >= if (c as int) < n {
            1int
        } else {
            0
        },
    decreases n,
{
    if n > 0 {
        lemma_count_at_least_one(h, c, n - 1);
        lemma_count_bounds(h, n - 1);
    }
}

/// A hand of zero cards is the zero bitboard.
pub proof fn lemma_count_zero_empty(h: u32)
    requires
        hand_size(h) == 0,
    ensures
        h == 0,
{
    assert forall|c: u8| c < 32 implies !has_card(h, c) by {
        if has_card(h, c) {
            lemma_count_at_least_one(h, c, 32);
        }
    }
    crate::cards::lemma_no_card_zero(h);
}

/// An empty hand carries no points.
pub proof fn lemma_zero_hand_points(trump: u8, n: int)
    ensures
        hand_points_upto(0u32, trump, n) == 0,
    decreases n,
{
    if n > 0 {
        lemma_zero_hand_points(trump, n - 1);
        let c = (n - 1) as u8;
        crate::cards::lemma_zero_board();
    assert(!has_card(0u32, c));
    }
}

/// An empty hand holds no cards.
pub proof fn lemma_zero_count(n: int)
    ensures
        count_upto(0u32, n) == 0,
    decreases n,
{
    if n > 0 {
        lemma_zero_count(n - 1);
        let c = (n - 1) as u8;
        crate::cards::lemma_zero_board();
    assert(!has_card(0u32, c));
    }
}

} // verus!
