//! Mid-game position sampling and batch solving for dataset generation.
//!
//! Positions are produced by playing random legal moves from a fresh deal,
//! so every emitted snapshot comes from a verified play-out.  When a batch
//! of snapshots comes back for solving, each one is reassembled and
//! revalidated with the run-time well-formedness check before the search
//! touches it; a snapshot that fails validation is flagged instead of
//! solved.

use vstd::prelude::*;

use crate::cards::holds;
use crate::playing::{seat_played, wf, PlayingState};
use crate::rng::random_below;
use crate::solver::{ordered_moves, Solver};

verus! {

/// One sampled mid-game snapshot: all four hands, the cards of the
/// in-progress trick in play order, the mask of cards already played, the
/// trump, the per-team trick counts and the seat to move.
pub struct RawGameplayState {
    pub hands: [u32; 4],
    pub board: Vec<u8>,
    pub history: u32,
    pub trump: u8,
    pub tricks_won: [u8; 2],
    pub player: u8,
}

/// One solved snapshot: the recommended card, the North-South score, and
/// whether the snapshot was valid at all.
pub struct SolvedGameplaySample {
    pub best_card: u8,
    pub best_score: i16,
    pub valid: bool,
}

/// Play random legal moves from a fresh random deal up to a biased number
/// of completed tricks plus a partial trick, and snapshot the position.
fn generate_single_raw_state() -> (r: RawGameplayState)
    ensures
        r.trump < 4,
        r.player < 4,
        r.board@.len() <= 3,
        forall|i: int| 0 <= i < r.board@.len() ==> #[trigger] r.board@[i] < 32,
{
    // Temporal bias: mostly endgames, some midgames, a few openings.
    let roll = random_below(100);
    let target_trick: u8 = if roll < 50 {
        5 + random_below(3) as u8
    } else if roll < 80 {
        3 + random_below(2) as u8
    } else {
        random_below(3) as u8
    };

    let hands = crate::deal::generate_random_hands();
    let trump = random_below(4) as u8;
    let mut state = PlayingState::new(trump);
    state.hands = hands;
    proof {
        crate::playing::lemma_fresh_deal(state);
    }

    let mut history: u32 = 0;
    let plays: u8 = target_trick * 4 + random_below(4) as u8;
    let mut done: u8 = 0;
    while done < plays
        invariant
            wf(state),
            state.trump == trump,
            plays <= 31,
        decreases plays - done,
    {
        let legal = state.get_legal_moves();
        if legal == 0 {
            break ;
        }
        let moves = ordered_moves(legal, state.trump, 0xFF);
        if moves.len() == 0 {
            break ;
        }
        let pick = random_below(moves.len() as u32) as usize;
        let m = moves[pick];
        proof {
            assert(crate::cards::has_card(legal, moves@[pick as int]));
            assert(crate::playing::card_legal(state, m));
        }
        state.play_card(m);
        history = history | (1u32 << (m as u32));
        done = done + 1;
    }

    // The in-progress trick, in play order from its leader.
    let mut board: Vec<u8> = Vec::new();
    let mut idx: u8 = 0;
    while idx < state.trick_size
        invariant
            wf(state),
            idx <= state.trick_size,
            board@.len() == idx,
            forall|i: int| 0 <= i < board@.len() ==> #[trigger] board@[i] < 32,
        decreases state.trick_size - idx,
    {
        let seat = (state.trick_starter + idx) % 4;
        proof {
            assert(seat_played(state, seat as int));
        }
        board.push(state.current_trick[seat as usize]);
        idx = idx + 1;
    }

    RawGameplayState {
        hands: state.hands,
        board,
        history,
        trump: state.trump,
        tricks_won: state.tricks_won,
        player: state.current_player,
    }
}

/// Sample `batch_size` snapshots.  Returned column-wise: the hands
/// seat-major, the boards, the played-card masks, the trumps, the trick
/// counts as two-entry rows, and the seats to move.
pub fn generate_raw_gameplay_batch(batch_size: usize) -> (r: (
    Vec<u32>,
    Vec<Vec<u8>>,
    Vec<u32>,
    Vec<u8>,
    Vec<Vec<u8>>,
    Vec<u8>,
))
    requires
        batch_size < 0x1000_0000,
    ensures
        r.0@.len() == batch_size * 4,
        r.1@.len() == batch_size,
        r.2@.len() == batch_size,
        r.3@.len() == batch_size,
        r.4@.len() == batch_size,
        r.5@.len() == batch_size,
        forall|i: int| 0 <= i < batch_size ==> #[trigger] r.3@[i] < 4,
        forall|i: int| 0 <= i < batch_size ==> #[trigger] r.4@[i]@.len() == 2,
        forall|i: int| 0 <= i < batch_size ==> #[trigger] r.5@[i] < 4,
{
    let mut hands_data: Vec<u32> = Vec::new();
    let mut boards_data: Vec<Vec<u8>> = Vec::new();
    let mut history_data: Vec<u32> = Vec::new();
    let mut trumps_data: Vec<u8> = Vec::new();
    let mut tricks_won_data: Vec<Vec<u8>> = Vec::new();
    let mut player_data: Vec<u8> = Vec::new();
    let mut done: usize = 0;
    while done < batch_size
        invariant
            batch_size < 0x1000_0000,
            done <= batch_size,
            hands_data@.len() == done * 4,
            boards_data@.len() == done,
            history_data@.len() == done,
            trumps_data@.len() == done,
            tricks_won_data@.len() == done,
            player_data@.len() == done,
            forall|i: int| 0 <= i < done ==> #[trigger] trumps_data@[i] < 4,
            forall|i: int| 0 <= i < done ==> #[trigger] tricks_won_data@[i]@.len() == 2,
            forall|i: int| 0 <= i < done ==> #[trigger] player_data@[i] < 4,
        decreases batch_size - done,
    {
        let s = generate_single_raw_state();
        hands_data.push(s.hands[0]);
        hands_data.push(s.hands[1]);
        hands_data.push(s.hands[2]);
        hands_data.push(s.hands[3]);
        boards_data.push(s.board);
        history_data.push(s.history);
        trumps_data.push(s.trump);
        let mut tw: Vec<u8> = Vec::new();
        tw.push(s.tricks_won[0]);
        tw.push(s.tricks_won[1]);
        tricks_won_data.push(tw);
        player_data.push(s.player);
        done = done + 1;
    }
    (hands_data, boards_data, history_data, trumps_data, tricks_won_data, player_data)
}

/// Reassemble one snapshot; `None` when its parts cannot form a
/// well-formed position.
fn reconstruct_state(
    hands: [u32; 4],
    board: &Vec<u8>,
    trump: u8,
    tricks0: u8,
    tricks1: u8,
    player: u8,
) -> (r: Option<PlayingState>)
    ensures
        r is Some ==> wf(r->0),
{
    if trump >= 4 || player >= 4 || board.len() > 3 {
        return None;
    }
    let mut state = PlayingState::new(trump);
    state.hands = hands;
    state.current_player = player;
    state.tricks_won[0] = tricks0;
    state.tricks_won[1] = tricks1;
    let trick_len = board.len() as u8;
    state.trick_size = trick_len;
    // The seat to move follows the cards already placed, so the leader
    // sits `trick_len` seats earlier.
    state.trick_starter = (player + 4 - trick_len) % 4;
    let mut idx: u8 = 0;
    while idx < trick_len
        invariant
            trick_len <= 3,
            idx <= trick_len,
            board@.len() == trick_len,
            state.trick_starter < 4,
        decreases trick_len - idx,
    {
        let card = board[idx as usize];
        if card >= 32 {
            return None;
        }
        let seat = ((state.trick_starter + idx) % 4) as usize;
        state.current_trick[seat] = card;
        idx = idx + 1;
    }
    if state.is_well_formed() {
        Some(state)
    } else {
        None
    }
}

/// Solve a batch of snapshots at the fast eight-ply depth cap.  Each
/// snapshot is revalidated; an invalid one comes back flagged with a zero
/// card and score.  With more than one PIMC iteration the recommended
/// card is the majority vote over determinised re-deals of the unseen
/// cards, while the score is the value of the true position.
pub fn solve_gameplay_batch(
    flattened_hands: &Vec<u32>,
    boards: &Vec<Vec<u8>>,
    history: &Vec<u32>,
    trumps: &Vec<u8>,
    tricks_won: &Vec<Vec<u8>>,
    players: &Vec<u8>,
    pimc_iterations: usize,
) -> (r: (Vec<u8>, Vec<i16>, Vec<bool>))
    requires
        flattened_hands@.len() == boards@.len() * 4,
        history@.len() == boards@.len(),
        trumps@.len() == boards@.len(),
        tricks_won@.len() == boards@.len(),
        players@.len() == boards@.len(),
        pimc_iterations <= 1000,
    ensures
        r.0@.len() == boards@.len(),
        r.1@.len() == boards@.len(),
        r.2@.len() == boards@.len(),
{
    let n = boards.len();
    let total_hand_entries = flattened_hands.len();
    proof {
        assert(total_hand_entries == flattened_hands@.len());
    }
    let mut best_cards: Vec<u8> = Vec::new();
    let mut best_scores: Vec<i16> = Vec::new();
    let mut valid_mask: Vec<bool> = Vec::new();
    let mut i: usize = 0;
    while i < n
        invariant
            n == boards@.len(),
            flattened_hands@.len() == boards@.len() * 4,
            trumps@.len() == boards@.len(),
            tricks_won@.len() == boards@.len(),
            players@.len() == boards@.len(),
            pimc_iterations <= 1000,
            i <= n,
            flattened_hands@.len() <= usize::MAX,
            best_cards@.len() == i,
            best_scores@.len() == i,
            valid_mask@.len() == i,
        decreases n - i,
    {
        proof {
            assert(4 * i + 3 < flattened_hands@.len());
        }
        let hands = [
            flattened_hands[4 * i],
            flattened_hands[4 * i + 1],
            flattened_hands[4 * i + 2],
            flattened_hands[4 * i + 3],
        ];
        let tw = &tricks_won[i];
        let (t0, t1): (u8, u8) = if tw.len() == 2 {
            (tw[0], tw[1])
        } else {
            (255, 255)
        };
        let reconstructed = if t0 == 255 && t1 == 255 {
            None
        } else {
            reconstruct_state(hands, &boards[i], trumps[i], t0, t1, players[i])
        };
        match reconstructed {
            None => {
                best_cards.push(0);
                best_scores.push(0);
                valid_mask.push(false);
            },
            Some(state) => {
                let legal = state.get_legal_moves();
                if state.is_terminal() || legal == 0 {
                    best_cards.push(0);
                    best_scores.push(0);
                    valid_mask.push(false);
                } else if pimc_iterations > 1 {
                    let (card, score) = pimc_vote(&state, pimc_iterations);
                    best_cards.push(card);
                    best_scores.push(score);
                    valid_mask.push(true);
                } else {
                    let (score, card) = crate::solver::solve(&state, 8, 14);
                    best_cards.push(card);
                    best_scores.push(score);
                    valid_mask.push(true);
                }
            },
        }
        i = i + 1;
    }
    (best_cards, best_scores, valid_mask)
}

/// Majority vote over determinised re-deals of the cards the mover cannot
/// see, scored by the perfect-information value of the true position.
fn pimc_vote(state: &PlayingState, pimc_iterations: usize) -> (r: (u8, i16))
    requires
        wf(*state),
        1 < pimc_iterations <= 1000,
{
    let mut votes: [u32; 32] = [
        0, 0, 0, 0, 0, 0, 0, 0, 0, 0, 0, 0, 0, 0, 0, 0, 0, 0, 0, 0, 0, 0, 0, 0, 0, 0, 0, 0, 0, 0,
        0, 0,
    ];
    let my_player = state.current_player as usize;
    let mut sizes: [u8; 4] = [0, 0, 0, 0];
    let mut p: u8 = 0;
    while p < 4
        invariant
            p <= 4,
            wf(*state),
        decreases 4 - p,
    {
        sizes[p as usize] = crate::solver::count_cards(state.hands[p as usize]);
        p = p + 1;
    }

    let mut worker = Solver::new(14);
    let mut it: usize = 0;
    while it < pimc_iterations
        invariant
            wf(*state),
            my_player == state.current_player as usize,
            my_player < 4,
            it <= pimc_iterations,
            pimc_iterations <= 1000,
            crate::solver::solver_wf(worker),
            worker.generation <= it,
            worker.hands_solved <= it,
            forall|k: int| 0 <= k < 32 ==> #[trigger] votes[k] <= it,
        decreases pimc_iterations - it,
    {
        // Gather the unseen cards.
        let mut hidden: Vec<u8> = Vec::new();
        let mut p2: u8 = 0;
        while p2 < 4
            invariant
                p2 <= 4,
                wf(*state),
                my_player < 4,
                hidden@.len() <= p2 as int * 32,
                forall|k: int| 0 <= k < hidden@.len() ==> #[trigger] hidden@[k] < 32,
            decreases 4 - p2,
        {
            if p2 as usize != my_player {
                let hand = state.hands[p2 as usize];
                let mut c: u8 = 0;
                let ghost before = hidden@.len();
                while c < 32
                    invariant
                        c <= 32,
                        hidden@.len() <= before + c as int,
                        forall|k: int| 0 <= k < hidden@.len() ==> #[trigger] hidden@[k] < 32,
                    decreases 32 - c,
                {
                    if holds(hand, c) {
                        hidden.push(c);
                    }
                    c = c + 1;
                }
            }
            p2 = p2 + 1;
        }

        if hidden.len() == 0 {
            // Nothing hidden: the vote is the exact best move.
            let (_score, card) = worker.solve(state, 8);
            if card < 32 {
                votes[card as usize] = votes[card as usize] + 1;
            }
        } else {
            proof {
                broadcast use vstd::seq_lib::group_to_multiset_ensures;

                assert(forall|k: int|
                    0 <= k < hidden@.len() ==> hidden@.to_multiset().count(#[trigger] hidden@[k])
                        > 0);
            }
            let ghost pre_shuffle = hidden@;
            crate::rng::shuffle_cards(&mut hidden);
            proof {
                broadcast use vstd::seq_lib::group_to_multiset_ensures;

                assert forall|k: int| 0 <= k < hidden@.len() implies #[trigger] hidden@[k] < 32 by {
                    assert(hidden@.to_multiset().count(hidden@[k]) > 0);
                    assert(pre_shuffle.to_multiset().count(hidden@[k]) > 0);
                    assert(pre_shuffle.contains(hidden@[k]));
                }
            }
            // Re-deal the unseen cards consistently with the hand sizes.
            let mut sampled = *state;
            let mut idx: usize = 0;
            let mut p3: u8 = 0;
            let mut fits = true;
            while p3 < 4
                invariant
                    p3 <= 4,
                    idx <= hidden@.len(),
                    forall|k: int| 0 <= k < hidden@.len() ==> #[trigger] hidden@[k] < 32,
                decreases 4 - p3,
            {
                if p3 as usize != my_player {
                    let count = sizes[p3 as usize];
                    let mut new_hand: u32 = 0;
                    let mut k: u8 = 0;
                    while k < count
                        invariant
                            k <= count,
                            idx <= hidden@.len(),
                            forall|kk: int| 0 <= kk < hidden@.len() ==> #[trigger] hidden@[kk] < 32,
                        decreases count - k,
                    {
                        if idx < hidden.len() {
                            let card = hidden[idx];
                            new_hand = new_hand | (1u32 << (card as u32));
                            idx = idx + 1;
                        } else {
                            fits = false;
                        }
                        k = k + 1;
                    }
                    sampled.hands[p3 as usize] = new_hand;
                }
                p3 = p3 + 1;
            }
            // Revalidate the determinisation before searching it.
            if fits && sampled.is_well_formed() {
                let (_score, card) = worker.solve(&sampled, 8);
                if card < 32 {
                    votes[card as usize] = votes[card as usize] + 1;
                }
            }
        }
        it = it + 1;
    }

    // Majority vote.
    let mut best_card: u8 = 0;
    let mut max_votes: u32 = 0;
    let mut c: u8 = 0;
    let mut first = true;
    while c < 32
        invariant
            c <= 32,
        decreases 32 - c,
    {
        if first || votes[c as usize] > max_votes {
            max_votes = votes[c as usize];
            best_card = c;
            first = false;
        }
        c = c + 1;
    }

    // Score: the value of the true position under the same cap.
    let (best_score, _mv) = worker.solve(state, 8);
    (best_card, best_score)
}

} // verus!
