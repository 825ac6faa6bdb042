//! Perfect-information solver for the card play of Coinche, the French
//! trick-taking game of the Belote family.
//!
//! The deck is modelled as a 32-bit bitboard (`cards`), a position of the
//! play phase as a small copyable state (`playing`), and the optimal line is
//! found by an iterative-deepening alpha-beta search with a Zobrist-keyed
//! transposition table (`solver`).  Biased deal construction and batch
//! evaluation live in `deal`, mid-game snapshot sampling in `dataset`, the
//! auction in `bidding`, and the auction-then-play orchestration in
//! `matchplay`.

pub mod bidding;
pub mod cards;
pub mod dataset;
pub mod deal;
pub mod matchplay;
pub mod playing;
pub mod rng;
pub mod solver;
