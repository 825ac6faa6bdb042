//! Iterative-deepening alpha-beta search with a Zobrist-keyed, fixed-size,
//! generation-tagged transposition table.
//!
//! Every function here is a deterministic mirror of a specification
//! function: the contract of `solve` pins its entire result, so two calls
//! on equal inputs provably return the same score and move.  The Zobrist
//! keys come from a seeded generator named in `rng`, never from entropy.

use vstd::prelude::*;

use crate::cards::{card_points, card_points_of, has_card, holds};
use crate::playing::{
    card_legal, count_upto, hand_size, is_terminal_spec, lemma_card_points_bound,
    lemma_count_bounds, lemma_points_bounded, play_card_spec, wf, PlayingState, FULL_BALANCE,
};
use crate::rng::{rand_stream, sample_stream};

verus! {

/// Seed of the Zobrist key table; fixed so that every process derives the
/// same keys and every search is reproducible.
pub const ZOBRIST_SEED: u64 = 12345;

/// Number of Zobrist keys: a key per (seat, card) in hand, per (seat, card)
/// in the trick, per seat to move, and per team with at least one trick.
pub const ZOBRIST_KEYS: usize = 262;

/// The Zobrist key table, drawn once from the fixed seed.
pub struct ZobristTable {
    pub keys: Vec<u64>,
}

/// The table holds exactly the named key stream of the fixed seed.
pub open spec fn zobrist_wf(t: ZobristTable) -> bool {
    t.keys@ == rand_stream(ZOBRIST_SEED, ZOBRIST_KEYS as nat) && t.keys@.len() == ZOBRIST_KEYS
}

impl ZobristTable {
    /// Draw the key table from the fixed seed.
    pub fn new() -> (t: ZobristTable)
        ensures
            zobrist_wf(t),
    {
        ZobristTable { keys: sample_stream(ZOBRIST_SEED, ZOBRIST_KEYS) }
    }
}

/// Key for card `c` held by seat `p`.
pub open spec fn key_hand(ks: Seq<u64>, p: int, c: int) -> u64 {
    ks[p * 32 + c]
}

/// Key for card `c` lying in the trick at seat `p`.
pub open spec fn key_trick(ks: Seq<u64>, p: int, c: int) -> u64 {
    ks[128 + p * 32 + c]
}

/// Key for seat `p` to move.
pub open spec fn key_turn(ks: Seq<u64>, p: int) -> u64 {
    ks[256 + p]
}

/// Key for team `t` having won at least one trick.
pub open spec fn key_won(ks: Seq<u64>, t: int) -> u64 {
    ks[260 + t]
}

/// XOR of the hand keys of seat `p` for the cards of `hand` below `n`.
pub open spec fn hash_hand_upto(ks: Seq<u64>, p: int, hand: u32, n: int) -> u64
    decreases n,
{
    if n <= 0 {
        0
    } else {
        let rest = hash_hand_upto(ks, p, hand, n - 1);
        if has_card(hand, (n - 1) as u8) {
            rest ^ key_hand(ks, p, n - 1)
        } else {
            rest
        }
    }
}

/// The position's Zobrist hash: XOR over the held cards, the cards in the
/// trick, the seat to move, and each team that has already won a trick.
pub open spec fn hash_of_state(ks: Seq<u64>, s: PlayingState) -> u64 {
    let h0 = hash_hand_upto(ks, 0, s.hands[0], 32) ^ hash_hand_upto(ks, 1, s.hands[1], 32)
        ^ hash_hand_upto(ks, 2, s.hands[2], 32) ^ hash_hand_upto(ks, 3, s.hands[3], 32);
    let h1 = if s.current_trick[0] != 0xFF {
        h0 ^ key_trick(ks, 0, s.current_trick[0] as int)
    } else {
        h0
    };
    let h2 = if s.current_trick[1] != 0xFF {
        h1 ^ key_trick(ks, 1, s.current_trick[1] as int)
    } else {
        h1
    };
    let h3 = if s.current_trick[2] != 0xFF {
        h2 ^ key_trick(ks, 2, s.current_trick[2] as int)
    } else {
        h2
    };
    let h4 = if s.current_trick[3] != 0xFF {
        h3 ^ key_trick(ks, 3, s.current_trick[3] as int)
    } else {
        h3
    };
    let h5 = h4 ^ key_turn(ks, s.current_player as int);
    let h6 = if s.tricks_won[0] > 0 {
        h5 ^ key_won(ks, 0)
    } else {
        h5
    };
    if s.tricks_won[1] > 0 {
        h6 ^ key_won(ks, 1)
    } else {
        h6
    }
}

/// A hand's hash splits over any disjoint division of its cards.
proof fn lemma_hash_xor_split(ks: Seq<u64>, p: int, a: u32, b: u32, n: int)
    requires
        a & b == 0,
        n <= 32,
    ensures
        hash_hand_upto(ks, p, a | b, n) == hash_hand_upto(ks, p, a, n) ^ hash_hand_upto(
            ks,
            p,
            b,
            n,
        ),
    decreases n,
{
    if n <= 0 {
        crate::cards::lemma_xor_identities(0, 0, 0);
    } else {
        lemma_hash_xor_split(ks, p, a, b, n - 1);
        let j = (n - 1) as u8;
        crate::cards::lemma_bit_or(a, b, j);
        crate::cards::lemma_disjoint_bit(a, b, j);
        let ra = hash_hand_upto(ks, p, a, n - 1);
        let rb = hash_hand_upto(ks, p, b, n - 1);
        let k = key_hand(ks, p, n - 1);
        crate::cards::lemma_xor_identities(ra, k, rb);
        crate::cards::lemma_xor_identities(k, rb, 0);
        crate::cards::lemma_xor_identities(ra, rb, k);
    }
}

/// The hash of a single card is its key.
proof fn lemma_hash_single(ks: Seq<u64>, p: int, c: u8, n: int)
    requires
        c < 32,
        n <= 32,
    ensures
        hash_hand_upto(ks, p, 1u32 << (c as u32), n) == if (c as int) < n {
            key_hand(ks, p, c as int)
        } else {
            0
        },
    decreases n,
{
    if n > 0 {
        lemma_hash_single(ks, p, c, n - 1);
        let j = (n - 1) as u8;
        crate::cards::lemma_bit_single(c, j);
        if j == c {
            let k = key_hand(ks, p, c as int);
            crate::cards::lemma_xor_identities(k, 0, 0);
        }
    }
}

/// XOR the hand keys of seat `p` onto `h`, walking only the set bits.
fn xor_hand_keys(h: u64, p: u8, hand: u32, table: &ZobristTable) -> (r: u64)
    requires
        p < 4,
        zobrist_wf(*table),
    ensures
        r == h ^ hash_hand_upto(table.keys@, p as int, hand, 32),
{
    let ghost ks = table.keys@;
    let mut acc = h;
    let mut rem = hand;
    let ghost processed: u32 = 0;
    proof {
        crate::cards::lemma_xor_identities(h, 0, 0);
        crate::cards::lemma_mask_identities(rem, 0);
        lemma_zero_hand_hash(ks, p as int, 32);
    }
    while rem != 0
        invariant
            p < 4,
            zobrist_wf(*table),
            ks == table.keys@,
            processed & rem == 0,
            processed | rem == hand,
            acc == h ^ hash_hand_upto(ks, p as int, processed, 32),
        decreases rem,
    {
        let tz = rem.trailing_zeros() as u8;
        proof {
            vstd::std_specs::bits::axiom_u32_trailing_zeros(rem);
            assert(tz < 32);
            assert(has_card(rem, tz));
        }
        acc = acc ^ table.keys[p as usize * 32 + tz as usize];
        let ghost processed_old = processed;
        proof {
            processed = processed | (1u32 << (tz as u32));
            let bit = 1u32 << (tz as u32);
            assert(processed_old & bit == 0 && (processed_old | bit) & (rem & !bit) == 0 && (
            processed_old | bit) | (rem & !bit) == processed_old | rem && rem & !bit
                < rem) by (bit_vector)
                requires
                    (rem >> (tz as u32)) & 1u32 == 1u32,
                    tz < 32,
                    processed_old & rem == 0,
                    bit == 1u32 << (tz as u32),
            ;
            lemma_hash_xor_split(ks, p as int, processed_old, bit, 32);
            lemma_hash_single(ks, p as int, tz, 32);
            let hp = hash_hand_upto(ks, p as int, processed_old, 32);
            let k = key_hand(ks, p as int, tz as int);
            crate::cards::lemma_xor_identities(h, hp, k);
        }
        rem = rem & !(1u32 << (tz as u32));
    }
    proof {
        crate::cards::lemma_mask_identities(processed, 0);
    }
    acc
}

proof fn lemma_zero_hand_hash(ks: Seq<u64>, p: int, n: int)
    ensures
        hash_hand_upto(ks, p, 0u32, n) == 0,
    decreases n,
{
    if n > 0 {
        lemma_zero_hand_hash(ks, p, n - 1);
        let j = (n - 1) as u8;
        crate::cards::lemma_zero_board();
        assert(!has_card(0u32, j));
    }
}

/// Compute the position's Zobrist hash from scratch.
pub fn compute_zobrist_hash(state: &PlayingState, table: &ZobristTable) -> (h: u64)
    requires
        wf(*state),
        zobrist_wf(*table),
    ensures
        h == hash_of_state(table.keys@, *state),
{
    let ghost ks = table.keys@;
    let mut h: u64 = 0;
    let mut p: u8 = 0;
    while p < 4
        invariant
            p <= 4,
            wf(*state),
            zobrist_wf(*table),
            ks == table.keys@,
            h == xor_hands_upto(ks, *state, p as int),
        decreases 4 - p,
    {
        h = xor_hand_keys(h, p, state.hands[p as usize], table);
        p = p + 1;
        proof {
            assert(xor_hands_upto(ks, *state, p as int) == xor_hands_upto(ks, *state, p - 1) ^
            hash_hand_upto(ks, p - 1, state.hands[p - 1], 32));
        }
    }
    proof {
        lemma_xor_hands_flat(ks, *state);
    }

    let mut p2: u8 = 0;
    while p2 < 4
        invariant
            p2 <= 4,
            wf(*state),
            zobrist_wf(*table),
            ks == table.keys@,
            h == xor_trick_upto(ks, *state, p2 as int, xor_hands_upto(ks, *state, 4)),
        decreases 4 - p2,
    {
        let card = state.current_trick[p2 as usize];
        if card != 0xFF {
            proof {
                assert(crate::playing::seat_played(*state, p2 as int));
            }
            h = h ^ table.keys[128 + p2 as usize * 32 + card as usize];
        }
        p2 = p2 + 1;
    }

    h = h ^ table.keys[256 + state.current_player as usize];
    if state.tricks_won[0] > 0 {
        h = h ^ table.keys[260];
    }
    if state.tricks_won[1] > 0 {
        h = h ^ table.keys[261];
    }
    proof {
        lemma_hash_assoc(ks, *state);
    }
    h
}

/// XOR of the hand hashes of the first `p` seats.
pub open spec fn xor_hands_upto(ks: Seq<u64>, s: PlayingState, p: int) -> u64
    decreases p,
{
    if p <= 0 {
        0
    } else {
        xor_hands_upto(ks, s, p - 1) ^ hash_hand_upto(ks, p - 1, s.hands[p - 1], 32)
    }
}

/// XOR of the trick keys of the first `p` seats onto `acc`.
pub open spec fn xor_trick_upto(ks: Seq<u64>, s: PlayingState, p: int, acc: u64) -> u64
    decreases p,
{
    if p <= 0 {
        acc
    } else {
        let rest = xor_trick_upto(ks, s, p - 1, acc);
        if s.current_trick[p - 1] != 0xFF {
            rest ^ key_trick(ks, p - 1, s.current_trick[p - 1] as int)
        } else {
            rest
        }
    }
}

/// Control bonus of a card for the cutoff heuristic: masters and
/// near-masters are worth holding beyond their trick points.
pub open spec fn control_weight(c: u8, trump: u8) -> int {
    if crate::cards::suit_of(c) == trump {
        if crate::cards::rank_of(c) == 4 {
            50
        } else if crate::cards::rank_of(c) == 2 {
            35
        } else if crate::cards::rank_of(c) == 7 {
            25
        } else if crate::cards::rank_of(c) == 3 {
            20
        } else if crate::cards::rank_of(c) == 6 {
            15
        } else if crate::cards::rank_of(c) == 5 {
            10
        } else {
            0
        }
    } else {
        if crate::cards::rank_of(c) == 7 {
            30
        } else if crate::cards::rank_of(c) == 3 {
            20
        } else if crate::cards::rank_of(c) == 6 {
            10
        } else {
            0
        }
    }
}

/// Heuristic weight of a card: its points plus its control bonus.
pub open spec fn card_weight(c: u8, trump: u8) -> int {
    card_points(c, trump) + control_weight(c, trump)
}

/// Sum of the weights of the cards of `h` below `n`.
pub open spec fn strength_upto(h: u32, trump: u8, n: int) -> int
    decreases n,
{
    if n <= 0 {
        0
    } else {
        strength_upto(h, trump, n - 1) + if has_card(h, (n - 1) as u8) {
            card_weight((n - 1) as u8, trump)
        } else {
            0
        }
    }
}

proof fn lemma_strength_bounds(h: u32, trump: u8, n: int)
    ensures
        0 <= strength_upto(h, trump, n),
        strength_upto(h, trump, n) <= 70 * (if n >= 0 {
            n
        } else {
            0
        }),
    decreases n,
{
    if n > 0 {
        lemma_strength_bounds(h, trump, n - 1);
        crate::playing::lemma_card_points_bound((n - 1) as u8, trump);
    }
}

/// A hand's weight splits over any disjoint division of its cards.
proof fn lemma_strength_split(a: u32, b: u32, trump: u8, n: int)
    requires
        a & b == 0,
        n <= 32,
    ensures
        strength_upto(a | b, trump, n) == strength_upto(a, trump, n) + strength_upto(b, trump, n),
    decreases n,
{
    if n > 0 {
        lemma_strength_split(a, b, trump, n - 1);
        let j = (n - 1) as u8;
        crate::cards::lemma_bit_or(a, b, j);
        crate::cards::lemma_disjoint_bit(a, b, j);
    }
}

/// The weight of a single card.
proof fn lemma_strength_single(c: u8, trump: u8, n: int)
    requires
        c < 32,
        n <= 32,
    ensures
        strength_upto(1u32 << (c as u32), trump, n) == if (c as int) < n {
            card_weight(c, trump)
        } else {
            0
        },
    decreases n,
{
    if n > 0 {
        lemma_strength_single(c, trump, n - 1);
        let j = (n - 1) as u8;
        crate::cards::lemma_bit_single(c, j);
    }
}

proof fn lemma_zero_strength(trump: u8, n: int)
    ensures
        strength_upto(0u32, trump, n) == 0,
    decreases n,
{
    if n > 0 {
        lemma_zero_strength(trump, n - 1);
        let j = (n - 1) as u8;
        crate::cards::lemma_zero_board();
        assert(!has_card(0u32, j));
    }
}

/// Heuristic weight of one hand, walking only its set bits.
fn hand_strength(h: u32, trump: u8) -> (w: i32)
    ensures
        w as int == strength_upto(h, trump, 32),
        0 <= w <= 2240,
{
    proof {
        lemma_strength_bounds(h, trump, 32);
        lemma_zero_strength(trump, 32);
        crate::cards::lemma_mask_identities(h, 0);
    }
    let mut w: i32 = 0;
    let mut rem = h;
    let ghost processed: u32 = 0;
    while rem != 0
        invariant
            processed & rem == 0,
            processed | rem == h,
            w as int == strength_upto(processed, trump, 32),
            0 <= w <= 2240,
        decreases rem,
    {
        let c = rem.trailing_zeros() as u8;
        proof {
            vstd::std_specs::bits::axiom_u32_trailing_zeros(rem);
            assert(c < 32);
            assert(has_card(rem, c));
        }
        let pts = card_points_of(c, trump);
        let control: i32 = if c / 8 == trump {
            match c % 8 {
                4 => 50,
                2 => 35,
                7 => 25,
                3 => 20,
                6 => 15,
                5 => 10,
                _ => 0,
            }
        } else {
            match c % 8 {
                7 => 30,
                3 => 20,
                6 => 10,
                _ => 0,
            }
        };
        let ghost processed_old = processed;
        proof {
            processed = processed | (1u32 << (c as u32));
            let bit = 1u32 << (c as u32);
            assert(processed_old & bit == 0 && (processed_old | bit) & (rem & !bit) == 0 && (
            processed_old | bit) | (rem & !bit) == processed_old | rem && rem & !bit
                < rem) by (bit_vector)
                requires
                    (rem >> (c as u32)) & 1u32 == 1u32,
                    c < 32,
                    processed_old & rem == 0,
                    bit == 1u32 << (c as u32),
            ;
            lemma_strength_split(processed_old, bit, trump, 32);
            lemma_strength_single(c, trump, 32);
            lemma_strength_bounds(processed_old | bit, trump, 32);
            crate::playing::lemma_card_points_bound(c, trump);
            assert forall|x: u8|
                x < 32 implies (#[trigger] has_card(processed_old | bit, x) ==> has_card(
                h,
                x,
            )) by {
                crate::cards::lemma_bit_or(processed_old, bit, x);
                crate::cards::lemma_bit_single(c, x);
                crate::cards::lemma_bit_or(processed_old, rem, x);
            }
            lemma_strength_mono(processed_old | bit, h, trump, 32);
        }
        w = w + pts as i32 + control;
        rem = rem & !(1u32 << (c as u32));
    }
    proof {
        crate::cards::lemma_mask_identities(processed, 0);
    }
    w
}

/// Weight is monotone under taking a sub-hand.
proof fn lemma_strength_mono(a: u32, b: u32, trump: u8, n: int)
    requires
        n <= 32,
        forall|x: u8| x < 32 ==> (#[trigger] has_card(a, x) ==> has_card(b, x)),
    ensures
        strength_upto(a, trump, n) <= strength_upto(b, trump, n),
    decreases n,
{
    if n > 0 {
        lemma_strength_mono(a, b, trump, n - 1);
        let j = (n - 1) as u8;
        assert(has_card(a, j) ==> has_card(b, j));
        crate::playing::lemma_card_points_bound(j, trump);
    }
}

/// Number of cards of `h`.
pub fn count_cards(h: u32) -> (n: u8)
    ensures
        n as int == hand_size(h),
        n <= 32,
{
    proof {
        lemma_count_bounds(h, 32);
    }
    let mut n: u8 = 0;
    let mut c: u8 = 0;
    while c < 32
        invariant
            c <= 32,
            n as int == count_upto(h, c as int),
            n <= c,
        decreases 32 - c,
    {
        proof {
            lemma_count_bounds(h, c as int);
        }
        if holds(h, c) {
            n = n + 1;
        }
        c = c + 1;
    }
    n
}

/// Cutoff heuristic at a non-terminal depth-0 node: the points already
/// credited to the North-South team plus the share of the remaining points
/// that its hand weight predicts.
pub open spec fn evaluate_spec(s: PlayingState) -> int {
    let cur = s.points[0] as int;
    let opp = s.points[1] as int;
    let rem = 162 - cur - opp;
    if rem <= 0 {
        cur
    } else {
        let s0 = strength_upto(s.hands[0], s.trump, 32) + strength_upto(s.hands[2], s.trump, 32);
        let s1 = strength_upto(s.hands[1], s.trump, 32) + strength_upto(s.hands[3], s.trump, 32);
        let tot = s0 + s1;
        if tot > 0 {
            cur + (rem * s0) / tot
        } else {
            cur + rem / 2
        }
    }
}

/// Static evaluation of a non-terminal position.
pub fn evaluate_state(state: &PlayingState) -> (r: i16)
    requires
        wf(*state),
    ensures
        r as int == evaluate_spec(*state),
        0 <= r <= 454,
{
    proof {
        lemma_points_bounded(*state);
    }
    let cur: i32 = state.points[0] as i32;
    let opp: i32 = state.points[1] as i32;
    let rem: i32 = 162 - cur - opp;
    if rem <= 0 {
        return state.points[0] as i16;
    }
    let s0 = hand_strength(state.hands[0], state.trump) + hand_strength(
        state.hands[2],
        state.trump,
    );
    let s1 = hand_strength(state.hands[1], state.trump) + hand_strength(
        state.hands[3],
        state.trump,
    );
    let tot = s0 + s1;
    let estimated: i32 = if tot > 0 {
        proof {
            assert(0 <= rem * s0 <= 162 * 4480) by (nonlinear_arith)
                requires
                    0 <= rem <= 162,
                    0 <= s0 <= 4480,
            ;
            assert(rem * s0 <= rem * tot) by (nonlinear_arith)
                requires
                    s0 <= tot,
                    rem >= 0,
            ;
            vstd::arithmetic::div_mod::lemma_div_is_ordered(rem * s0 as int, rem * tot as int, tot as int);
            vstd::arithmetic::div_mod::lemma_div_multiples_vanish(rem as int, tot as int);
            assert(rem * s0 >= 0) by (nonlinear_arith)
                requires
                    s0 >= 0,
                    rem >= 0,
            ;
            vstd::arithmetic::div_mod::lemma_div_pos_is_pos(rem * s0 as int, tot as int);
        }
        (rem * s0) / tot
    } else {
        rem / 2
    };
    (cur + estimated) as i16
}

/// One slot of the transposition table.
#[derive(Clone, Copy, Debug)]
pub struct TTEntry {
    /// Full hash key, for collision detection.
    pub key: u64,
    /// Score normalised by the North-South points at store time.
    pub score: i16,
    pub best_move: u8,
    /// 0 = exact, 1 = lower bound, 2 = upper bound.
    pub flag: u8,
    /// Depth of the search that produced the entry.
    pub depth: u8,
    /// Solve that produced the entry; other generations count as empty.
    pub generation: u64,
}

impl Default for TTEntry {
    /// An empty slot: no key, no move, generation zero.
    fn default() -> (e: TTEntry)
        ensures
            e == (TTEntry {
                key: 0u64,
                score: 0i16,
                best_move: 0xFFu8,
                flag: 0u8,
                depth: 0u8,
                generation: 0u64,
            }),
    {
        TTEntry { key: 0, score: 0, best_move: 0xFF, flag: 0, depth: 0, generation: 0 }
    }
}

/// Normalised scores the search may store; everything the search hands
/// back stays within `TT_SCORE_LIMIT + FULL_BALANCE`.
pub const TT_SCORE_LIMIT: i16 = 30000;

pub open spec fn tt_entry_ok(e: TTEntry) -> bool {
    -30000 <= e.score <= 30000
}

/// Position `i` in the move ordering: the trump suit from strongest to
/// weakest first, then each plain suit from strongest to weakest.
pub open spec fn trump_rank_order(i: int) -> u8 {
    if i == 0 {
        4
    } else if i == 1 {
        2
    } else if i == 2 {
        7
    } else if i == 3 {
        3
    } else if i == 4 {
        6
    } else if i == 5 {
        5
    } else if i == 6 {
        1
    } else {
        0
    }
}

pub open spec fn plain_rank_order(i: int) -> u8 {
    if i == 0 {
        7
    } else if i == 1 {
        3
    } else if i == 2 {
        6
    } else if i == 3 {
        5
    } else if i == 4 {
        4
    } else if i == 5 {
        2
    } else if i == 6 {
        1
    } else {
        0
    }
}

/// Suit enumerated in block `b` of the ordering: the trump first, then the
/// plain suits in ascending order.
pub open spec fn suit_for_block(trump: u8, b: int) -> int {
    if trump < 4 {
        if b == 0 {
            trump as int
        } else if b - 1 < trump {
            b - 1
        } else {
            b
        }
    } else {
        b
    }
}

/// The `i`-th card of the deterministic move ordering.
pub open spec fn card_order(trump: u8, i: int) -> u8 {
    let b = i / 8;
    let r = i % 8;
    if b == 0 && trump < 4 {
        (trump * 8 + trump_rank_order(r)) as u8
    } else {
        (suit_for_block(trump, b) * 8 + plain_rank_order(r)) as u8
    }
}

/// The `i`-th card of the ordering, executably.
fn card_at(trump: u8, i: u8) -> (c: u8)
    requires
        i < 32,
    ensures
        c == card_order(trump, i as int),
        c < 32,
{
    let b = i / 8;
    let r = i % 8;
    let ranks: u8 = if b == 0 && trump < 4 {
        match r {
            0 => 4,
            1 => 2,
            2 => 7,
            3 => 3,
            4 => 6,
            5 => 5,
            6 => 1,
            _ => 0,
        }
    } else {
        match r {
            0 => 7,
            1 => 3,
            2 => 6,
            3 => 5,
            4 => 4,
            5 => 2,
            6 => 1,
            _ => 0,
        }
    };
    let suit: u8 = if trump < 4 {
        if b == 0 {
            trump
        } else if b - 1 < trump {
            b - 1
        } else {
            b
        }
    } else {
        b
    };
    suit * 8 + ranks
}

/// Moves of `mask` in search order: a valid transposition-table move
/// first, then the fixed strongest-first enumeration.
pub open spec fn enum_upto(mask: u32, trump: u8, ttm: u8, i: int) -> Seq<u8>
    decreases i,
{
    if i <= 0 {
        if ttm < 32 && has_card(mask, ttm) {
            seq![ttm]
        } else {
            Seq::empty()
        }
    } else {
        let rest = enum_upto(mask, trump, ttm, i - 1);
        let c = card_order(trump, i - 1);
        if has_card(mask, c) && c != ttm {
            rest.push(c)
        } else {
            rest
        }
    }
}

pub open spec fn ordered_moves_spec(mask: u32, trump: u8, ttm: u8) -> Seq<u8> {
    enum_upto(mask, trump, ttm, 32)
}

/// Collect the moves of `mask` in search order.
pub(crate) fn ordered_moves(mask: u32, trump: u8, ttm: u8) -> (r: Vec<u8>)
    ensures
        r@ == ordered_moves_spec(mask, trump, ttm),
        forall|k: int| 0 <= k < r@.len() ==> (#[trigger] r@[k]) < 32 && has_card(mask, r@[k]),
        r@.len() <= 33,
{
    let mut r: Vec<u8> = Vec::new();
    if ttm < 32 && holds(mask, ttm) {
        r.push(ttm);
    }
    proof {
        assert(r@ == enum_upto(mask, trump, ttm, 0));
    }
    let mut i: u8 = 0;
    while i < 32
        invariant
            i <= 32,
            r@ == enum_upto(mask, trump, ttm, i as int),
            forall|k: int| 0 <= k < r@.len() ==> (#[trigger] r@[k]) < 32 && has_card(mask, r@[k]),
            r@.len() <= 1 + i,
        decreases 32 - i,
    {
        let c = card_at(trump, i);
        if holds(mask, c) && c != ttm {
            r.push(c);
        }
        i = i + 1;
    }
    r
}

/// Legal moves of `s` in search order, by the legality predicate.
pub open spec fn enum_legal_upto(s: PlayingState, ttm: u8, i: int) -> Seq<u8>
    decreases i,
{
    if i <= 0 {
        if ttm < 32 && card_legal(s, ttm) {
            seq![ttm]
        } else {
            Seq::empty()
        }
    } else {
        let rest = enum_legal_upto(s, ttm, i - 1);
        let c = card_order(s.trump, i - 1);
        if card_legal(s, c) && c != ttm {
            rest.push(c)
        } else {
            rest
        }
    }
}

pub open spec fn search_moves_spec(s: PlayingState, ttm: u8) -> Seq<u8> {
    enum_legal_upto(s, ttm, 32)
}

/// A mask that holds exactly the legal cards enumerates the same moves as
/// the legality predicate.
proof fn lemma_enum_eq(s: PlayingState, mask: u32, ttm: u8, i: int)
    requires
        forall|c: u8| c < 32 ==> (#[trigger] has_card(mask, c) <==> card_legal(s, c)),
        i <= 32,
    ensures
        enum_upto(mask, s.trump, ttm, i) == enum_legal_upto(s, ttm, i),
    decreases i,
{
    if i <= 0 {
        if ttm < 32 {
            assert(has_card(mask, ttm) <==> card_legal(s, ttm));
        }
    } else {
        lemma_enum_eq(s, mask, ttm, i - 1);
        assert(card_order(s.trump, i - 1) < 32) by {
            crate::playing::lemma_card_points_bound(0, 0);
        }
    }
}

/// The alpha-beta walk over the moves of one node, from move `i` on.
/// Mirrored exactly by `eval_moves`.
pub open spec fn eval_moves_spec(
    s: PlayingState,
    moves: Seq<u8>,
    i: int,
    is_max: bool,
    alpha: int,
    beta: int,
    val: int,
    best: u8,
    tt: Seq<TTEntry>,
    depth: u8,
    ks: Seq<u64>,
    gen: u64,
) -> (int, u8, Seq<TTEntry>)
    decreases depth, 0int, moves.len() - i,
{
    if i >= moves.len() || depth == 0 {
        (val, best, tt)
    } else {
        let c = moves[i];
        let ns = play_card_spec(s, c);
        let nh = hash_of_state(ks, ns);
        let m = minimax_spec(ns, nh, alpha, beta, tt, (depth - 1) as u8, ks, gen);
        let ev = m.0;
        if is_max {
            let val2 = if ev > val {
                ev
            } else {
                val
            };
            let best2 = if ev > val {
                c
            } else {
                best
            };
            let alpha2 = if val2 > alpha {
                val2
            } else {
                alpha
            };
            if beta <= alpha2 {
                (val2, best2, m.2)
            } else {
                eval_moves_spec(s, moves, i + 1, is_max, alpha2, beta, val2, best2, m.2, depth, ks, gen)
            }
        } else {
            let val2 = if ev < val {
                ev
            } else {
                val
            };
            let best2 = if ev < val {
                c
            } else {
                best
            };
            let beta2 = if val2 < beta {
                val2
            } else {
                beta
            };
            if beta2 <= alpha {
                (val2, best2, m.2)
            } else {
                eval_moves_spec(s, moves, i + 1, is_max, alpha, beta2, val2, best2, m.2, depth, ks, gen)
            }
        }
    }
}

/// One alpha-beta node: terminal and depth-0 leaves, transposition-table
/// probe with score normalisation, the move walk, and the store.
/// Mirrored exactly by `minimax`.
pub open spec fn minimax_spec(
    s: PlayingState,
    hash: u64,
    alpha0: int,
    beta0: int,
    tt: Seq<TTEntry>,
    depth: u8,
    ks: Seq<u64>,
    gen: u64,
) -> (int, u8, Seq<TTEntry>)
    decreases depth, 1int, 0int,
{
    if is_terminal_spec(s) {
        (s.points[0] as int, 0xFFu8, tt)
    } else if depth == 0 {
        (evaluate_spec(s), 0xFFu8, tt)
    } else {
        let cur = s.points[0] as int;
        let idx = hash as int % tt.len() as int;
        let e = tt[idx];
        let hit = e.key == hash && e.generation == gen && e.depth >= depth;
        let alpha_norm = alpha0 - cur;
        let beta_norm = beta0 - cur;
        if hit && e.flag == 0 {
            (e.score + cur, e.best_move, tt)
        } else if hit && e.flag == 1 && e.score >= beta_norm {
            (e.score + cur, e.best_move, tt)
        } else if hit && e.flag == 2 && e.score <= alpha_norm {
            (e.score + cur, e.best_move, tt)
        } else {
            let alpha1 = if hit && e.flag == 1 && alpha0 < e.score + cur {
                e.score + cur
            } else {
                alpha0
            };
            let beta1 = if hit && e.flag == 2 && beta0 > e.score + cur {
                e.score + cur
            } else {
                beta0
            };
            if hit && alpha1 >= beta1 {
                (e.score + cur, e.best_move, tt)
            } else {
                let ttm = if e.key == hash && e.generation == gen {
                    e.best_move
                } else {
                    0xFFu8
                };
                let moves = search_moves_spec(s, ttm);
                let is_max = s.current_player % 2 == 0;
                let init: int = if is_max {
                    -1000
                } else {
                    1000
                };
                let m = eval_moves_spec(
                    s,
                    moves,
                    0,
                    is_max,
                    alpha1,
                    beta1,
                    init,
                    0xFFu8,
                    tt,
                    depth,
                    ks,
                    gen,
                );
                let val = m.0;
                let norm0 = val - cur;
                let norm: int = if norm0 > 30000 {
                    30000
                } else if norm0 < -30000 {
                    -30000
                } else {
                    norm0
                };
                let flag: u8 = if is_max {
                    if val <= alpha1 {
                        2
                    } else if val >= beta1 {
                        1
                    } else {
                        0
                    }
                } else {
                    if val <= alpha1 {
                        2
                    } else {
                        1
                    }
                };
                let store = TTEntry {
                    key: hash,
                    score: norm as i16,
                    best_move: m.1,
                    flag,
                    depth,
                    generation: gen,
                };
                (val, m.1, m.2.update(idx, store))
            }
        }
    }
}

/// The move walk of one node, executably.
#[verifier::rlimit(30)]
fn eval_moves(
    state: &PlayingState,
    moves: &Vec<u8>,
    i: usize,
    is_max: bool,
    alpha: i16,
    beta: i16,
    val: i16,
    best: u8,
    tt: &mut Vec<TTEntry>,
    depth: u8,
    table: &ZobristTable,
    gen: u64,
) -> (r: (i16, u8))
    requires
        wf(*state),
        zobrist_wf(*table),
        old(tt)@.len() > 0,
        forall|k: int| 0 <= k < old(tt)@.len() ==> tt_entry_ok(#[trigger] old(tt)@[k]),
        depth >= 1,
        forall|k: int| 0 <= k < moves@.len() ==> card_legal(*state, #[trigger] moves@[k]),
        -31000 <= alpha <= 31000,
        -31000 <= beta <= 31000,
        -30292 <= val <= 30292,
    ensures
        ({
            let m = eval_moves_spec(
                *state,
                moves@,
                i as int,
                is_max,
                alpha as int,
                beta as int,
                val as int,
                best,
                old(tt)@,
                depth,
                table.keys@,
                gen,
            );
            &&& r.0 as int == m.0
            &&& r.1 == m.1
            &&& final(tt)@ == m.2
        }),
        -30292 <= r.0 <= 30292,
        final(tt)@.len() == old(tt)@.len(),
        forall|k: int| 0 <= k < final(tt)@.len() ==> tt_entry_ok(#[trigger] final(tt)@[k]),
    decreases depth, 0int, moves@.len() - i,
{
    if i >= moves.len() {
        return (val, best);
    }
    let c = moves[i];
    proof {
        assert(card_legal(*state, c));
    }
    let mut ns = *state;
    ns.play_card(c);
    let nh = compute_zobrist_hash(&ns, table);
    let m = minimax(&ns, nh, alpha, beta, tt, depth - 1, table, gen);
    let ev = m.0;
    if is_max {
        let val2 = if ev > val {
            ev
        } else {
            val
        };
        let best2 = if ev > val {
            c
        } else {
            best
        };
        let alpha2 = if val2 > alpha {
            val2
        } else {
            alpha
        };
        if beta <= alpha2 {
            return (val2, best2);
        }
        eval_moves(state, moves, i + 1, is_max, alpha2, beta, val2, best2, tt, depth, table, gen)
    } else {
        let val2 = if ev < val {
            ev
        } else {
            val
        };
        let best2 = if ev < val {
            c
        } else {
            best
        };
        let beta2 = if val2 < beta {
            val2
        } else {
            beta
        };
        if beta2 <= alpha {
            return (val2, best2);
        }
        eval_moves(state, moves, i + 1, is_max, alpha, beta2, val2, best2, tt, depth, table, gen)
    }
}

/// One alpha-beta node, executably.
#[verifier::rlimit(30)]
pub fn minimax(
    state: &PlayingState,
    hash: u64,
    alpha: i16,
    beta: i16,
    tt: &mut Vec<TTEntry>,
    depth: u8,
    table: &ZobristTable,
    gen: u64,
) -> (r: (i16, u8))
    requires
        wf(*state),
        zobrist_wf(*table),
        old(tt)@.len() > 0,
        forall|k: int| 0 <= k < old(tt)@.len() ==> tt_entry_ok(#[trigger] old(tt)@[k]),
        -31000 <= alpha <= 31000,
        -31000 <= beta <= 31000,
    ensures
        ({
            let m = minimax_spec(
                *state,
                hash,
                alpha as int,
                beta as int,
                old(tt)@,
                depth,
                table.keys@,
                gen,
            );
            &&& r.0 as int == m.0
            &&& r.1 == m.1
            &&& final(tt)@ == m.2
        }),
        -30292 <= r.0 <= 30292,
        final(tt)@.len() == old(tt)@.len(),
        forall|k: int| 0 <= k < final(tt)@.len() ==> tt_entry_ok(#[trigger] final(tt)@[k]),
    decreases depth, 1int, 0int,
{
    proof {
        lemma_points_bounded(*state);
    }
    if state.is_terminal() {
        return (state.points[0] as i16, 0xFF);
    }
    if depth == 0 {
        return (evaluate_state(state), 0xFF);
    }

    let cur: i16 = state.points[0] as i16;
    let idx = (hash % (tt.len() as u64)) as usize;
    proof {
        assert(idx as int == hash as int % tt@.len() as int);
    }
    let e = tt[idx];
    let hit = e.key == hash && e.generation == gen && e.depth >= depth;
    let alpha_norm = alpha - cur;
    let beta_norm = beta - cur;

    if hit && e.flag == 0 {
        return (e.score + cur, e.best_move);
    }
    if hit && e.flag == 1 && e.score >= beta_norm {
        return (e.score + cur, e.best_move);
    }
    if hit && e.flag == 2 && e.score <= alpha_norm {
        return (e.score + cur, e.best_move);
    }
    let alpha1: i16 = if hit && e.flag == 1 && alpha < e.score + cur {
        e.score + cur
    } else {
        alpha
    };
    let beta1: i16 = if hit && e.flag == 2 && beta > e.score + cur {
        e.score + cur
    } else {
        beta
    };
    if hit && alpha1 >= beta1 {
        return (e.score + cur, e.best_move);
    }

    let ttm: u8 = if e.key == hash && e.generation == gen {
        e.best_move
    } else {
        0xFF
    };
    let mask = state.get_legal_moves();
    let moves = ordered_moves(mask, state.trump, ttm);
    proof {
        lemma_enum_eq(*state, mask, ttm, 32);
    }
    let is_max = state.current_player % 2 == 0;
    let init: i16 = if is_max {
        -1000
    } else {
        1000
    };
    let m = eval_moves(state, &moves, 0, is_max, alpha1, beta1, init, 0xFF, tt, depth, table, gen);
    let val = m.0;
    let norm0 = val - cur;
    let norm: i16 = if norm0 > 30000 {
        30000
    } else if norm0 < -30000 {
        -30000
    } else {
        norm0
    };
    let flag: u8 = if is_max {
        if val <= alpha1 {
            2
        } else if val >= beta1 {
            1
        } else {
            0
        }
    } else {
        if val <= alpha1 {
            2
        } else {
            1
        }
    };
    let store = TTEntry { key: hash, score: norm, best_move: m.1, flag, depth, generation: gen };
    tt[idx] = store;
    (val, m.1)
}

/// Iterative deepening: the searches of depth 1 up to `n` in turn, each
/// warming the table for the next; the deepest pass's result stands.
pub open spec fn deepen_spec(
    s: PlayingState,
    hash: u64,
    n: int,
    tt: Seq<TTEntry>,
    ks: Seq<u64>,
    gen: u64,
) -> (int, u8, Seq<TTEntry>)
    decreases n,
{
    if n <= 0 {
        (0int, 0xFFu8, tt)
    } else {
        let prev = deepen_spec(s, hash, n - 1, tt, ks, gen);
        minimax_spec(s, hash, -1000, 1000, prev.2, n as u8, ks, gen)
    }
}

/// The depth cap of one solve: four plies per card the mover holds, capped
/// by the caller.
pub open spec fn depth_bound_spec(s: PlayingState, depth_cap: u8) -> int {
    let d = 4 * hand_size(s.hands[s.current_player as int]);
    if d < depth_cap {
        d
    } else {
        depth_cap as int
    }
}

/// The result of one solve against a given table and generation.
pub open spec fn solve_with_table_spec(
    s: PlayingState,
    depth_cap: u8,
    tt: Seq<TTEntry>,
    gen: u64,
    ks: Seq<u64>,
) -> (int, u8, Seq<TTEntry>) {
    deepen_spec(s, hash_of_state(ks, s), depth_bound_spec(s, depth_cap), tt, ks, gen)
}

/// An all-empty table of `n` slots.
pub open spec fn empty_table(n: int) -> Seq<TTEntry> {
    Seq::new(
        n as nat,
        |i: int|
            TTEntry {
                key: 0u64,
                score: 0i16,
                best_move: 0xFFu8,
                flag: 0u8,
                depth: 0u8,
                generation: 0u64,
            },
    )
}

/// The result of `solve`: a fresh table of `2^tt_size_log2` slots, the
/// first generation, and the keys of the fixed seed.  A function of the
/// position and the two parameters alone.
pub open spec fn solve_spec(s: PlayingState, depth_cap: u8, tt_size_log2: u8) -> (int, u8) {
    let m = solve_with_table_spec(
        s,
        depth_cap,
        empty_table((1usize << tt_size_log2) as int),
        1u64,
        rand_stream(ZOBRIST_SEED, ZOBRIST_KEYS as nat),
    );
    (m.0, m.1)
}

/// The search is deterministic: with the fixed Zobrist seed, equal
/// positions and equal parameters always solve to the same score and move.
pub proof fn lemma_solve_deterministic(
    s1: PlayingState,
    s2: PlayingState,
    depth_cap: u8,
    tt_size_log2: u8,
)
    requires
        s1 == s2,
    ensures
        solve_spec(s1, depth_cap, tt_size_log2) == solve_spec(s2, depth_cap, tt_size_log2),
{
}

/// Two table slots look the same to searches of the given generations:
/// dead to both, or live in both with the same contents.
pub open spec fn entry_rel(e1: TTEntry, e2: TTEntry, g1: u64, g2: u64) -> bool {
    &&& (e1.generation == g1 <==> e2.generation == g2)
    &&& (e1.generation == g1 ==> e1.key == e2.key && e1.score == e2.score && e1.best_move
        == e2.best_move && e1.flag == e2.flag && e1.depth == e2.depth)
}

pub open spec fn tt_rel(t1: Seq<TTEntry>, t2: Seq<TTEntry>, g1: u64, g2: u64) -> bool {
    t1.len() == t2.len() && (forall|k: int|
        0 <= k < t1.len() ==> entry_rel(#[trigger] t1[k], #[trigger] t2[k], g1, g2))
}

/// The move walk cannot tell two generation-equivalent tables apart.
proof fn lemma_eval_moves_gen_blind(
    s: PlayingState,
    moves: Seq<u8>,
    i: int,
    is_max: bool,
    alpha: int,
    beta: int,
    val: int,
    best: u8,
    t1: Seq<TTEntry>,
    t2: Seq<TTEntry>,
    depth: u8,
    ks: Seq<u64>,
    g1: u64,
    g2: u64,
)
    requires
        t1.len() > 0,
        tt_rel(t1, t2, g1, g2),
    ensures
        ({
            let m1 = eval_moves_spec(s, moves, i, is_max, alpha, beta, val, best, t1, depth, ks, g1);
            let m2 = eval_moves_spec(s, moves, i, is_max, alpha, beta, val, best, t2, depth, ks, g2);
            &&& m1.0 == m2.0
            &&& m1.1 == m2.1
            &&& tt_rel(m1.2, m2.2, g1, g2)
            &&& m1.2.len() == t1.len()
        }),
    decreases depth, 0int, moves.len() - i,
{
    if i >= moves.len() || depth == 0 {
    } else {
        let c = moves[i];
        let ns = play_card_spec(s, c);
        let nh = hash_of_state(ks, ns);
        lemma_minimax_gen_blind(ns, nh, alpha, beta, t1, t2, (depth - 1) as u8, ks, g1, g2);
        let m1 = minimax_spec(ns, nh, alpha, beta, t1, (depth - 1) as u8, ks, g1);
        let m2 = minimax_spec(ns, nh, alpha, beta, t2, (depth - 1) as u8, ks, g2);
        let ev = m1.0;
        if is_max {
            let val2 = if ev > val {
                ev
            } else {
                val
            };
            let best2 = if ev > val {
                c
            } else {
                best
            };
            let alpha2 = if val2 > alpha {
                val2
            } else {
                alpha
            };
            if beta <= alpha2 {
            } else {
                lemma_eval_moves_gen_blind(
                    s,
                    moves,
                    i + 1,
                    is_max,
                    alpha2,
                    beta,
                    val2,
                    best2,
                    m1.2,
                    m2.2,
                    depth,
                    ks,
                    g1,
                    g2,
                );
            }
        } else {
            let val2 = if ev < val {
                ev
            } else {
                val
            };
            let best2 = if ev < val {
                c
            } else {
                best
            };
            let beta2 = if val2 < beta {
                val2
            } else {
                beta
            };
            if beta2 <= alpha {
            } else {
                lemma_eval_moves_gen_blind(
                    s,
                    moves,
                    i + 1,
                    is_max,
                    alpha,
                    beta2,
                    val2,
                    best2,
                    m1.2,
                    m2.2,
                    depth,
                    ks,
                    g1,
                    g2,
                );
            }
        }
    }
}

/// One node cannot tell two generation-equivalent tables apart: lookups
/// see the same live entries and stores write related ones.
proof fn lemma_minimax_gen_blind(
    s: PlayingState,
    hash: u64,
    alpha0: int,
    beta0: int,
    t1: Seq<TTEntry>,
    t2: Seq<TTEntry>,
    depth: u8,
    ks: Seq<u64>,
    g1: u64,
    g2: u64,
)
    requires
        t1.len() > 0,
        tt_rel(t1, t2, g1, g2),
    ensures
        ({
            let m1 = minimax_spec(s, hash, alpha0, beta0, t1, depth, ks, g1);
            let m2 = minimax_spec(s, hash, alpha0, beta0, t2, depth, ks, g2);
            &&& m1.0 == m2.0
            &&& m1.1 == m2.1
            &&& tt_rel(m1.2, m2.2, g1, g2)
            &&& m1.2.len() == t1.len()
        }),
    decreases depth, 1int, 0int,
{
    if is_terminal_spec(s) || depth == 0 {
    } else {
        let idx = hash as int % t1.len() as int;
        let e1 = t1[idx];
        let e2 = t2[idx];
        assert(entry_rel(e1, e2, g1, g2));
        let hit = e1.key == hash && e1.generation == g1 && e1.depth >= depth;
        let cur = s.points[0] as int;
        let alpha_norm = alpha0 - cur;
        let beta_norm = beta0 - cur;
        if hit && e1.flag == 0 {
        } else if hit && e1.flag == 1 && e1.score >= beta_norm {
        } else if hit && e1.flag == 2 && e1.score <= alpha_norm {
        } else {
            let alpha1 = if hit && e1.flag == 1 && alpha0 < e1.score + cur {
                e1.score + cur
            } else {
                alpha0
            };
            let beta1 = if hit && e1.flag == 2 && beta0 > e1.score + cur {
                e1.score + cur
            } else {
                beta0
            };
            if hit && alpha1 >= beta1 {
            } else {
                let ttm = if e1.key == hash && e1.generation == g1 {
                    e1.best_move
                } else {
                    0xFFu8
                };
                let moves = search_moves_spec(s, ttm);
                let is_max = s.current_player % 2 == 0;
                let init: int = if is_max {
                    -1000
                } else {
                    1000
                };
                lemma_eval_moves_gen_blind(
                    s,
                    moves,
                    0,
                    is_max,
                    alpha1,
                    beta1,
                    init,
                    0xFFu8,
                    t1,
                    t2,
                    depth,
                    ks,
                    g1,
                    g2,
                );
                let m1 = eval_moves_spec(
                    s,
                    moves,
                    0,
                    is_max,
                    alpha1,
                    beta1,
                    init,
                    0xFFu8,
                    t1,
                    depth,
                    ks,
                    g1,
                );
                let m2 = eval_moves_spec(
                    s,
                    moves,
                    0,
                    is_max,
                    alpha1,
                    beta1,
                    init,
                    0xFFu8,
                    t2,
                    depth,
                    ks,
                    g2,
                );
                let r1 = minimax_spec(s, hash, alpha0, beta0, t1, depth, ks, g1);
                let r2 = minimax_spec(s, hash, alpha0, beta0, t2, depth, ks, g2);
                assert forall|k: int|
                    0 <= k < r1.2.len() implies entry_rel(
                    #[trigger] r1.2[k],
                    #[trigger] r2.2[k],
                    g1,
                    g2,
                ) by {
                    if k != idx {
                        assert(r1.2[k] == m1.2[k]);
                        assert(r2.2[k] == m2.2[k]);
                        assert(entry_rel(m1.2[k], m2.2[k], g1, g2));
                    }
                }
            }
        }
    }
}

/// Iterative deepening cannot tell two generation-equivalent tables apart.
proof fn lemma_deepen_gen_blind(
    s: PlayingState,
    hash: u64,
    n: int,
    t1: Seq<TTEntry>,
    t2: Seq<TTEntry>,
    ks: Seq<u64>,
    g1: u64,
    g2: u64,
)
    requires
        t1.len() > 0,
        tt_rel(t1, t2, g1, g2),
    ensures
        ({
            let m1 = deepen_spec(s, hash, n, t1, ks, g1);
            let m2 = deepen_spec(s, hash, n, t2, ks, g2);
            &&& m1.0 == m2.0
            &&& m1.1 == m2.1
            &&& tt_rel(m1.2, m2.2, g1, g2)
            &&& m1.2.len() == t1.len()
        }),
    decreases n,
{
    if n > 0 {
        lemma_deepen_gen_blind(s, hash, n - 1, t1, t2, ks, g1, g2);
        let p1 = deepen_spec(s, hash, n - 1, t1, ks, g1);
        let p2 = deepen_spec(s, hash, n - 1, t2, ks, g2);
        lemma_minimax_gen_blind(s, hash, -1000, 1000, p1.2, p2.2, n as u8, ks, g1, g2);
    }
}

/// A solve never reads an entry of another generation: any table whose
/// entries are all dead to the solve's generation — a fresh table, or one
/// warmed by earlier solves of a worker that bumps its generation — yields
/// the same score and move as any other.  With `lemma_solve_deterministic`
/// this pins the whole behaviour of `solve` to its inputs.
pub proof fn lemma_warm_table_invisible(
    s: PlayingState,
    depth_cap: u8,
    t1: Seq<TTEntry>,
    g1: u64,
    t2: Seq<TTEntry>,
    g2: u64,
    ks: Seq<u64>,
)
    requires
        t1.len() == t2.len(),
        t1.len() > 0,
        forall|k: int| 0 <= k < t1.len() ==> (#[trigger] t1[k]).generation != g1,
        forall|k: int| 0 <= k < t2.len() ==> (#[trigger] t2[k]).generation != g2,
    ensures
        solve_with_table_spec(s, depth_cap, t1, g1, ks).0 == solve_with_table_spec(
            s,
            depth_cap,
            t2,
            g2,
            ks,
        ).0,
        solve_with_table_spec(s, depth_cap, t1, g1, ks).1 == solve_with_table_spec(
            s,
            depth_cap,
            t2,
            g2,
            ks,
        ).1,
{
    assert(tt_rel(t1, t2, g1, g2));
    lemma_deepen_gen_blind(
        s,
        hash_of_state(ks, s),
        depth_bound_spec(s, depth_cap),
        t1,
        t2,
        ks,
        g1,
        g2,
    );
}

/// The move walk writes only entries of its own generation.
proof fn lemma_eval_moves_gens(
    s: PlayingState,
    moves: Seq<u8>,
    i: int,
    is_max: bool,
    alpha: int,
    beta: int,
    val: int,
    best: u8,
    tt: Seq<TTEntry>,
    depth: u8,
    ks: Seq<u64>,
    gen: u64,
)
    requires
        tt.len() > 0,
    ensures
        ({
            let m = eval_moves_spec(s, moves, i, is_max, alpha, beta, val, best, tt, depth, ks, gen);
            &&& m.2.len() == tt.len()
            &&& forall|k: int|
                0 <= k < tt.len() ==> #[trigger] m.2[k] == tt[k] || m.2[k].generation == gen
        }),
    decreases depth, 0int, moves.len() - i,
{
    if i >= moves.len() || depth == 0 {
    } else {
        let c = moves[i];
        let ns = play_card_spec(s, c);
        let nh = hash_of_state(ks, ns);
        lemma_minimax_gens(ns, nh, alpha, beta, tt, (depth - 1) as u8, ks, gen);
        let m = minimax_spec(ns, nh, alpha, beta, tt, (depth - 1) as u8, ks, gen);
        let ev = m.0;
        if is_max {
            let val2 = if ev > val {
                ev
            } else {
                val
            };
            let best2 = if ev > val {
                c
            } else {
                best
            };
            let alpha2 = if val2 > alpha {
                val2
            } else {
                alpha
            };
            if beta <= alpha2 {
            } else {
                lemma_eval_moves_gens(
                    s,
                    moves,
                    i + 1,
                    is_max,
                    alpha2,
                    beta,
                    val2,
                    best2,
                    m.2,
                    depth,
                    ks,
                    gen,
                );
            }
        } else {
            let val2 = if ev < val {
                ev
            } else {
                val
            };
            let best2 = if ev < val {
                c
            } else {
                best
            };
            let beta2 = if val2 < beta {
                val2
            } else {
                beta
            };
            if beta2 <= alpha {
            } else {
                lemma_eval_moves_gens(
                    s,
                    moves,
                    i + 1,
                    is_max,
                    alpha,
                    beta2,
                    val2,
                    best2,
                    m.2,
                    depth,
                    ks,
                    gen,
                );
            }
        }
    }
}

/// One node writes only entries of its own generation.
proof fn lemma_minimax_gens(
    s: PlayingState,
    hash: u64,
    alpha0: int,
    beta0: int,
    tt: Seq<TTEntry>,
    depth: u8,
    ks: Seq<u64>,
    gen: u64,
)
    requires
        tt.len() > 0,
    ensures
        ({
            let m = minimax_spec(s, hash, alpha0, beta0, tt, depth, ks, gen);
            &&& m.2.len() == tt.len()
            &&& forall|k: int|
                0 <= k < tt.len() ==> #[trigger] m.2[k] == tt[k] || m.2[k].generation == gen
        }),
    decreases depth, 1int, 0int,
{
    if is_terminal_spec(s) || depth == 0 {
    } else {
        let idx = hash as int % tt.len() as int;
        let e = tt[idx];
        let hit = e.key == hash && e.generation == gen && e.depth >= depth;
        let cur = s.points[0] as int;
        let alpha_norm = alpha0 - cur;
        let beta_norm = beta0 - cur;
        if hit && e.flag == 0 {
        } else if hit && e.flag == 1 && e.score >= beta_norm {
        } else if hit && e.flag == 2 && e.score <= alpha_norm {
        } else {
            let alpha1 = if hit && e.flag == 1 && alpha0 < e.score + cur {
                e.score + cur
            } else {
                alpha0
            };
            let beta1 = if hit && e.flag == 2 && beta0 > e.score + cur {
                e.score + cur
            } else {
                beta0
            };
            if hit && alpha1 >= beta1 {
            } else {
                let ttm = if e.key == hash && e.generation == gen {
                    e.best_move
                } else {
                    0xFFu8
                };
                let moves = search_moves_spec(s, ttm);
                let is_max = s.current_player % 2 == 0;
                let init: int = if is_max {
                    -1000
                } else {
                    1000
                };
                lemma_eval_moves_gens(
                    s,
                    moves,
                    0,
                    is_max,
                    alpha1,
                    beta1,
                    init,
                    0xFFu8,
                    tt,
                    depth,
                    ks,
                    gen,
                );
                let me = eval_moves_spec(
                    s,
                    moves,
                    0,
                    is_max,
                    alpha1,
                    beta1,
                    init,
                    0xFFu8,
                    tt,
                    depth,
                    ks,
                    gen,
                );
                let r = minimax_spec(s, hash, alpha0, beta0, tt, depth, ks, gen);
                assert forall|k: int|
                    0 <= k < tt.len() implies #[trigger] r.2[k] == tt[k] || r.2[k].generation
                    == gen by {
                    if k != idx {
                        assert(r.2[k] == me.2[k]);
                        assert(me.2[k] == tt[k] || me.2[k].generation == gen);
                    } else {
                        assert(r.2[k].generation == gen);
                    }
                }
            }
        }
    }
}

/// Iterative deepening writes only entries of its own generation.
pub proof fn lemma_deepen_gens(
    s: PlayingState,
    hash: u64,
    n: int,
    tt: Seq<TTEntry>,
    ks: Seq<u64>,
    gen: u64,
)
    requires
        tt.len() > 0,
    ensures
        ({
            let m = deepen_spec(s, hash, n, tt, ks, gen);
            &&& m.2.len() == tt.len()
            &&& forall|k: int|
                0 <= k < tt.len() ==> #[trigger] m.2[k] == tt[k] || m.2[k].generation == gen
        }),
    decreases n,
{
    if n > 0 {
        lemma_deepen_gens(s, hash, n - 1, tt, ks, gen);
        let p = deepen_spec(s, hash, n - 1, tt, ks, gen);
        lemma_minimax_gens(s, hash, -1000, 1000, p.2, n as u8, ks, gen);
    }
}

/// A search worker: a private transposition table reused across solves by
/// bumping a generation tag, so no solve sees another solve's entries and
/// the table never needs clearing.
pub struct Solver {
    pub tt: Vec<TTEntry>,
    pub generation: u64,
    pub hands_solved: u64,
    pub table: ZobristTable,
}

pub open spec fn solver_wf(so: Solver) -> bool {
    &&& so.tt@.len() > 0
    &&& zobrist_wf(so.table)
    &&& (forall|k: int| 0 <= k < so.tt@.len() ==> tt_entry_ok(#[trigger] so.tt@[k]))
    &&& (forall|k: int| 0 <= k < so.tt@.len() ==> (#[trigger] so.tt@[k]).generation <= so.generation)
}

impl Solver {
    /// A fresh worker with an empty table of `2^tt_size_log2` slots.
    pub fn new(tt_size_log2: u8) -> (so: Solver)
        requires
            tt_size_log2 <= 24,
        ensures
            solver_wf(so),
            so.tt@ == empty_table((1usize << tt_size_log2) as int),
            so.generation == 0,
            so.hands_solved == 0,
            zobrist_wf(so.table),
    {
        let size: usize = 1usize << tt_size_log2;
        proof {
            assert(1usize << tt_size_log2 >= 1) by (bit_vector)
                requires
                    tt_size_log2 <= 24,
            ;
        }
        let tt: Vec<TTEntry> = vec![TTEntry::default(); size];
        proof {
            assert(tt@ =~= empty_table((1usize << tt_size_log2) as int));
            assert forall|k: int| 0 <= k < tt@.len() implies tt_entry_ok(#[trigger] tt@[k]) by {
                assert(tt@[k] == empty_table((1usize << tt_size_log2) as int)[k]);
            }
        }
        Solver { tt, generation: 0, hands_solved: 0, table: ZobristTable::new() }
    }

    /// Has this worker solved nothing yet?
    pub fn is_first_hand(&self) -> (b: bool)
        ensures
            b == (self.hands_solved == 0),
    {
        self.hands_solved == 0
    }

    /// Solve one position: bump the generation, then deepen the search one
    /// ply at a time up to the cap, each pass seeding the next through the
    /// table.  Returns the deepest pass's North-South score and move.
    pub fn solve(&mut self, state: &PlayingState, depth_cap: u8) -> (r: (i16, u8))
        requires
            solver_wf(*old(self)),
            wf(*state),
            old(self).generation < 0xFFFF_FFFF_FFFF_FFFFu64,
            old(self).hands_solved < 0xFFFF_FFFF_FFFF_FFFFu64,
        ensures
            solver_wf(*final(self)),
            ({
                let m = solve_with_table_spec(
                    *state,
                    depth_cap,
                    old(self).tt@,
                    (old(self).generation + 1) as u64,
                    old(self).table.keys@,
                );
                &&& r.0 as int == m.0
                &&& r.1 == m.1
                &&& final(self).tt@ == m.2
            }),
            final(self).generation == old(self).generation + 1,
            final(self).hands_solved == old(self).hands_solved + 1,
            final(self).table == old(self).table,
            -30292 <= r.0 <= 30292 || (r.0 == 0 && r.1 == 0xFF),
    {
        self.generation = self.generation + 1;
        self.hands_solved = self.hands_solved + 1;
        let gen = self.generation;

        let hash = compute_zobrist_hash(state, &self.table);
        let cards_left = count_cards(state.hands[state.current_player as usize]);
        let four_tricks = cards_left * 4;
        let max_depth: u8 = if four_tricks < depth_cap {
            four_tricks
        } else {
            depth_cap
        };
        proof {
            assert(max_depth as int == depth_bound_spec(*state, depth_cap));
            assert(max_depth <= 128);
        }

        let ghost tt0 = self.tt@;
        let ghost ks = self.table.keys@;
        let mut best_score: i16 = 0;
        let mut best_move: u8 = 0xFF;
        let mut depth: u8 = 1;
        while depth <= max_depth
            invariant
                1 <= depth,
                depth <= max_depth + 1,
                max_depth <= 128,
                wf(*state),
                zobrist_wf(self.table),
                ks == self.table.keys@,
                hash == hash_of_state(ks, *state),
                self.tt@.len() > 0,
                forall|k: int| 0 <= k < self.tt@.len() ==> tt_entry_ok(#[trigger] self.tt@[k]),
                ({
                    let d = deepen_spec(*state, hash, depth - 1, tt0, ks, gen);
                    &&& best_score as int == d.0 || (depth == 1 && best_score == 0)
                    &&& best_move == d.1 || (depth == 1 && best_move == 0xFF)
                    &&& self.tt@ == d.2
                    &&& (depth == 1 ==> best_score == 0 && best_move == 0xFF)
                }),
                -30292 <= best_score <= 30292 || (best_score == 0 && best_move == 0xFF),
                self.generation == gen,
                self.hands_solved == old(self).hands_solved + 1,
                self.table == old(self).table,
            decreases max_depth + 1 - depth,
        {
            let m = minimax(state, hash, -1000, 1000, &mut self.tt, depth, &self.table, gen);
            best_score = m.0;
            best_move = m.1;
            depth = depth + 1;
        }
        proof {
            lemma_deepen_gens(*state, hash, max_depth as int, tt0, ks, gen);
        }
        (best_score, best_move)
    }
}

/// The warmed table of a well-formed worker is invisible to its next
/// solve: the result equals that of a fresh empty table of the same size
/// under the same keys.  Together with `lemma_solve_deterministic`, two
/// solves of equal positions agree even when the table carries entries
/// from earlier solves.
pub proof fn lemma_worker_solve_fresh(so: Solver, s: PlayingState, depth_cap: u8)
    requires
        solver_wf(so),
        so.generation < 0xFFFF_FFFF_FFFF_FFFFu64,
    ensures
        solve_with_table_spec(
            s,
            depth_cap,
            so.tt@,
            (so.generation + 1) as u64,
            so.table.keys@,
        ).0 == solve_with_table_spec(
            s,
            depth_cap,
            empty_table(so.tt@.len() as int),
            1u64,
            so.table.keys@,
        ).0,
        solve_with_table_spec(
            s,
            depth_cap,
            so.tt@,
            (so.generation + 1) as u64,
            so.table.keys@,
        ).1 == solve_with_table_spec(
            s,
            depth_cap,
            empty_table(so.tt@.len() as int),
            1u64,
            so.table.keys@,
        ).1,
{
    let fresh = empty_table(so.tt@.len() as int);
    assert(forall|k: int| 0 <= k < fresh.len() ==> (#[trigger] fresh[k]).generation == 0);
    lemma_warm_table_invisible(
        s,
        depth_cap,
        so.tt@,
        (so.generation + 1) as u64,
        fresh,
        1u64,
        so.table.keys@,
    );
}

/// Run the search on one position with a fresh table: the result is the
/// specified function of the position, the depth cap and the table size.
pub fn solve(state: &PlayingState, depth_cap: u8, tt_size_log2: u8) -> (r: (i16, u8))
    requires
        wf(*state),
        tt_size_log2 <= 24,
    ensures
        r.0 as int == solve_spec(*state, depth_cap, tt_size_log2).0,
        r.1 == solve_spec(*state, depth_cap, tt_size_log2).1,
{
    let mut worker = Solver::new(tt_size_log2);
    worker.solve(state, depth_cap)
}

proof fn lemma_xor_hands_flat(ks: Seq<u64>, s: PlayingState)
    ensures
        xor_hands_upto(ks, s, 4) == ((hash_hand_upto(ks, 0, s.hands[0], 32) ^ hash_hand_upto(
            ks,
            1,
            s.hands[1],
            32,
        )) ^ hash_hand_upto(ks, 2, s.hands[2], 32)) ^ hash_hand_upto(ks, 3, s.hands[3], 32),
{
    reveal_with_fuel(xor_hands_upto, 5);
    let a = hash_hand_upto(ks, 0, s.hands[0], 32);
    crate::cards::lemma_xor_identities(a, 0, 0);
}

proof fn lemma_hash_assoc(ks: Seq<u64>, s: PlayingState)
    ensures
        hash_of_state(ks, s) == ({
            let base = xor_trick_upto(ks, s, 4, xor_hands_upto(ks, s, 4));
            let h5 = base ^ key_turn(ks, s.current_player as int);
            let h6 = if s.tricks_won[0] > 0 {
                h5 ^ key_won(ks, 0)
            } else {
                h5
            };
            if s.tricks_won[1] > 0 {
                h6 ^ key_won(ks, 1)
            } else {
                h6
            }
        }),
{
    reveal_with_fuel(xor_hands_upto, 5);
    reveal_with_fuel(xor_trick_upto, 5);
    let a = hash_hand_upto(ks, 0, s.hands[0], 32);
    let b = hash_hand_upto(ks, 1, s.hands[1], 32);
    let c = hash_hand_upto(ks, 2, s.hands[2], 32);
    let d = hash_hand_upto(ks, 3, s.hands[3], 32);
    assert(xor_hands_upto(ks, s, 4) == ((a ^ b) ^ c) ^ d) by {
        crate::cards::lemma_xor_identities(a, 0, 0);
    }
}

} // verus!
