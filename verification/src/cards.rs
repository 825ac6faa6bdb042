//! Card encoding over a 32-bit bitboard.
//!
//! A card is an integer in `[0, 32)`: the low three bits are the rank in the
//! fixed order 7, 8, 9, 10, J, Q, K, A and the high two bits are the suit in
//! the fixed order Diamonds, Spades, Hearts, Clubs.  A hand is a `u32` with
//! bit `card` set iff the hand holds that card.

use vstd::prelude::*;

verus! {

pub const DIAMONDS: u8 = 0;
pub const SPADES: u8 = 1;
pub const HEARTS: u8 = 2;
pub const CLUBS: u8 = 3;

pub const RANK_7: u8 = 0;
pub const RANK_8: u8 = 1;
pub const RANK_9: u8 = 2;
pub const RANK_10: u8 = 3;
pub const RANK_J: u8 = 4;
pub const RANK_Q: u8 = 5;
pub const RANK_K: u8 = 6;
pub const RANK_A: u8 = 7;

/// Seat that has not yet placed a card in the current trick.
pub const NO_CARD: u8 = 0xFF;

/// The full 32-card deck as a bitboard.
pub const FULL_DECK: u32 = 0xFFFF_FFFF;

pub open spec fn suit_of(c: u8) -> u8 {
    c / 8
}

pub open spec fn rank_of(c: u8) -> u8 {
    c % 8
}

/// Does hand `h` hold card `c`?
pub open spec fn has_card(h: u32, c: u8) -> bool
    recommends
        c < 32,
{
    (h >> (c as u32)) & 1u32 == 1u32
}

/// All cards of suit `s`, as a bitboard mask.
pub open spec fn suit_mask(s: u8) -> u32
    recommends
        s < 4,
{
    0xFFu32 << ((s as u32) * 8)
}

/// Strength of a rank inside the trump suit: 7 < 8 < Q < K < 10 < A < 9 < J.
pub open spec fn trump_strength(r: u8) -> u8
    recommends
        r < 8,
{
    if r == 0 {
        0
    } else if r == 1 {
        1
    } else if r == 2 {
        6
    } else if r == 3 {
        4
    } else if r == 4 {
        7
    } else if r == 5 {
        2
    } else if r == 6 {
        3
    } else {
        5
    }
}

/// Strength of a rank inside a plain suit: 7 < 8 < 9 < J < Q < K < 10 < A.
pub open spec fn plain_strength(r: u8) -> u8
    recommends
        r < 8,
{
    if r == 0 {
        0
    } else if r == 1 {
        1
    } else if r == 2 {
        2
    } else if r == 3 {
        6
    } else if r == 4 {
        3
    } else if r == 5 {
        4
    } else if r == 6 {
        5
    } else {
        7
    }
}

/// Point value of a rank inside the trump suit.
pub open spec fn trump_points(r: u8) -> u16
    recommends
        r < 8,
{
    if r == 2 {
        14
    } else if r == 3 {
        10
    } else if r == 4 {
        20
    } else if r == 5 {
        3
    } else if r == 6 {
        4
    } else if r == 7 {
        11
    } else {
        0
    }
}

/// Point value of a rank inside a plain suit.
pub open spec fn plain_points(r: u8) -> u16
    recommends
        r < 8,
{
    if r == 3 {
        10
    } else if r == 4 {
        2
    } else if r == 5 {
        3
    } else if r == 6 {
        4
    } else if r == 7 {
        11
    } else {
        0
    }
}

/// Strength of a card when `trump` is the trump suit.
pub open spec fn card_strength(c: u8, trump: u8) -> u8
    recommends
        c < 32,
{
    if suit_of(c) == trump {
        trump_strength(rank_of(c))
    } else {
        plain_strength(rank_of(c))
    }
}

/// Point value of a card when `trump` is the trump suit.
pub open spec fn card_points(c: u8, trump: u8) -> u16
    recommends
        c < 32,
{
    if suit_of(c) == trump {
        trump_points(rank_of(c))
    } else {
        plain_points(rank_of(c))
    }
}

pub fn trump_strength_of(r: u8) -> (s: u8)
    requires
        r < 8,
    ensures
        s == trump_strength(r),
{
    match r {
        0 => 0,
        1 => 1,
        2 => 6,
        3 => 4,
        4 => 7,
        5 => 2,
        6 => 3,
        _ => 5,
    }
}

pub fn plain_strength_of(r: u8) -> (s: u8)
    requires
        r < 8,
    ensures
        s == plain_strength(r),
{
    match r {
        0 => 0,
        1 => 1,
        2 => 2,
        3 => 6,
        4 => 3,
        5 => 4,
        6 => 5,
        _ => 7,
    }
}

pub fn trump_points_of(r: u8) -> (p: u16)
    requires
        r < 8,
    ensures
        p == trump_points(r),
{
    match r {
        2 => 14,
        3 => 10,
        4 => 20,
        5 => 3,
        6 => 4,
        7 => 11,
        _ => 0,
    }
}

pub fn plain_points_of(r: u8) -> (p: u16)
    requires
        r < 8,
    ensures
        p == plain_points(r),
{
    match r {
        3 => 10,
        4 => 2,
        5 => 3,
        6 => 4,
        7 => 11,
        _ => 0,
    }
}

pub fn card_strength_of(c: u8, trump: u8) -> (s: u8)
    requires
        c < 32,
    ensures
        s == card_strength(c, trump),
{
    if c / 8 == trump {
        trump_strength_of(c % 8)
    } else {
        plain_strength_of(c % 8)
    }
}

pub fn card_points_of(c: u8, trump: u8) -> (p: u16)
    requires
        c < 32,
    ensures
        p == card_points(c, trump),
{
    if c / 8 == trump {
        trump_points_of(c % 8)
    } else {
        plain_points_of(c % 8)
    }
}

/// Does hand `h` hold card `c`?  Executable twin of `has_card`.
pub fn holds(h: u32, c: u8) -> (b: bool)
    requires
        c < 32,
    ensures
        b == has_card(h, c),
{
    (h >> (c as u32)) & 1u32 == 1u32
}

pub proof fn lemma_bit_and(a: u32, b: u32, c: u8)
    by (bit_vector)
    requires
        c < 32,
    ensures
        has_card(a & b, c) <==> has_card(a, c) && has_card(b, c),
{
}

pub proof fn lemma_bit_or(a: u32, b: u32, c: u8)
    by (bit_vector)
    requires
        c < 32,
    ensures
        has_card(a | b, c) <==> has_card(a, c) || has_card(b, c),
{
}

pub proof fn lemma_bit_single(k: u8, c: u8)
    by (bit_vector)
    requires
        k < 32,
        c < 32,
    ensures
        has_card(1u32 << (k as u32), c) <==> c == k,
{
}

pub proof fn lemma_bit_clear(a: u32, k: u8, c: u8)
    by (bit_vector)
    requires
        k < 32,
        c < 32,
    ensures
        has_card(a & !(1u32 << (k as u32)), c) <==> has_card(a, c) && c != k,
{
}

pub proof fn lemma_suit_mask_bit(h: u32, s: u8, c: u8)
    by (bit_vector)
    requires
        s < 4,
        c < 32,
    ensures
        has_card(h & (0xFFu32 << ((s as u32) * 8)), c) <==> has_card(h, c) && c / 8 == s,
{
}

pub proof fn lemma_disjoint_bit(a: u32, b: u32, c: u8)
    by (bit_vector)
    requires
        c < 32,
        a & b == 0,
    ensures
        !(has_card(a, c) && has_card(b, c)),
{
}

/// The empty bitboard holds no cards.
pub proof fn lemma_zero_board()
    by (bit_vector)
    ensures
        forall|c: u8| !(#[trigger] has_card(0u32, c)),
{
}

/// Identities of masking against zero and itself, and commutativity.
pub proof fn lemma_mask_identities(a: u32, b: u32)
    by (bit_vector)
    ensures
        0u32 & a == 0u32,
        a & 0u32 == 0u32,
        0u32 | a == a,
        a | 0u32 == a,
        a & a == a,
        a & b == b & a,
{
}

/// XOR identities: zero is neutral, and the operation commutes and
/// associates.
pub proof fn lemma_xor_identities(a: u64, b: u64, c: u64)
    by (bit_vector)
    ensures
        a ^ 0u64 == a,
        0u64 ^ a == a,
        a ^ b == b ^ a,
        (a ^ b) ^ c == a ^ (b ^ c),
{
}

/// The suit mask holds exactly the cards of its suit.
pub proof fn lemma_suit_mask_has(s: u8, c: u8)
    by (bit_vector)
    requires
        s < 4,
        c < 32,
    ensures
        has_card(0xFFu32 << ((s as u32) * 8), c) <==> c / 8 == s,
{
}

/// AND distributes over OR on bitboards.
pub proof fn lemma_or_and_distribute(a: u32, b: u32, m: u32)
    by (bit_vector)
    ensures
        (a | b) & m == (a & m) | (b & m),
{
}

/// Restricting one of two disjoint bitboards keeps them disjoint.
pub proof fn lemma_and_mask_disjoint(a: u32, b: u32, x: u32)
    by (bit_vector)
    requires
        a & b == 0,
    ensures
        (a & x) & b == 0,
        b & (a & x) == 0,
{
}

/// A non-empty bitboard holds the card at its lowest set bit.
pub proof fn lemma_nonzero_has_card(m: u32) -> (c: u8)
    requires
        m != 0,
    ensures
        c < 32,
        has_card(m, c),
{
    vstd::std_specs::bits::axiom_u32_trailing_zeros(m);
    let tz = vstd::std_specs::bits::u32_trailing_zeros(m);
    assert((m >> (tz as u32)) & 1u32 == 1u32);
    (tz as u8)
}

/// A bitboard with no card set is zero.
pub proof fn lemma_no_card_zero(m: u32)
    requires
        forall|c: u8| c < 32 ==> !has_card(m, c),
    ensures
        m == 0,
{
    if m != 0 {
        let c = lemma_nonzero_has_card(m);
    }
}

} // verus!
