//! Orchestration of a whole round: the auction, then card play until the
//! hands are empty, then the verdict on the contract.
//!
//! The orchestrator validates every outside move before applying it, so
//! the verified auction and play layers always run inside their
//! contracts.

use vstd::prelude::*;

use crate::bidding::{Bid, BiddingState};
use crate::cards::holds;
use crate::playing::{
    card_legal, is_terminal_spec, lemma_initial_state, play_card_spec, wf, PlayingState,
};

verus! {

/// Where a match stands: in the auction, in card play, or settled.
#[derive(Debug, Clone)]
pub enum Phase {
    Bidding(BiddingState),
    Playing(PlayingState),
    Finished(MatchResult),
}

/// Outcome of a settled match.
#[derive(Debug, Clone)]
pub struct MatchResult {
    pub contract: Option<Bid>,
    pub contract_owner: Option<u8>,
    pub points_ns: i16,
    pub points_ew: i16,
    pub contract_made: bool,
}

/// A round being played out: auction state or play state, the dealer, the
/// standing contract, and the four dealt hands.
pub struct CoincheMatch {
    pub phase: Phase,
    pub dealer: u8,
    pub contract: Option<Bid>,
    pub contract_owner: Option<u8>,
    pub coinche_level: u8,
    pub initial_hands: [u32; 4],
}

/// Invariant of a match: sane seats, disjoint dealt hands, a play phase
/// that is well formed and has a contract, and an auction that has not
/// silently finished.
pub open spec fn match_wf(m: CoincheMatch) -> bool {
    &&& m.dealer < 4
    &&& (forall|i: int, j: int|
        0 <= i < 4 && 0 <= j < 4 && i != j ==> m.initial_hands[i] & m.initial_hands[j] == 0)
    &&& (match m.phase {
        Phase::Bidding(b) => b.current_player < 4 && b.consecutive_passes <= 4 && (match b.contract {
            Some(c) => c.trump < 6,
            None => true,
        }),
        Phase::Playing(p) => wf(p) && m.contract is Some && m.contract_owner is Some
            && m.contract_owner->0 < 4,
        Phase::Finished(_) => true,
    })
}

impl CoincheMatch {
    /// Start a match from dealt hands; the auction opens at the seat
    /// after the dealer.
    pub fn new_rs(dealer: u8, hands: [u32; 4]) -> (m: CoincheMatch)
        requires
            dealer < 4,
            forall|i: int, j: int|
                0 <= i < 4 && 0 <= j < 4 && i != j ==> hands[i] & hands[j] == 0,
        ensures
            match_wf(m),
            m.phase is Bidding,
            m.dealer == dealer,
            m.initial_hands == hands,
            m.contract is None,
            m.contract_owner is None,
            m.coinche_level == 0,
    {
        CoincheMatch {
            phase: Phase::Bidding(BiddingState::new(dealer)),
            dealer,
            contract: None,
            contract_owner: None,
            coinche_level: 0,
            initial_hands: hands,
        }
    }

    /// Start a match from unchecked parts: the dealer must be a seat, the
    /// hands must be four and must not overlap.
    pub fn new(dealer: u8, hands: Vec<u32>) -> (r: Result<CoincheMatch, &'static str>)
        ensures
            r is Ok ==> match_wf(r->Ok_0) && r->Ok_0.phase is Bidding,
            r is Ok <==> (dealer < 4 && hands@.len() == 4 && (forall|i: int, j: int|
                0 <= i < 4 && 0 <= j < 4 && i != j ==> hands@[i] & hands@[j] == 0)),
    {
        if dealer >= 4 {
            proof {
                assert(!(dealer < 4));
            }
            return Err("Dealer must be a seat");
        }
        if hands.len() != 4 {
            return Err("Hands must have 4 entries");
        }
        let h = [hands[0], hands[1], hands[2], hands[3]];
        let mut a: usize = 0;
        while a < 4
            invariant
                hands@.len() == 4,
                a <= 4,
                h@ =~= hands@,
                forall|i: int, j: int|
                    0 <= i < a && 0 <= j < 4 && i != j ==> hands@[i] & hands@[j] == 0,
            decreases 4 - a,
        {
            let mut b: usize = 0;
            while b < 4
                invariant
                    hands@.len() == 4,
                    a < 4,
                    b <= 4,
                    h@ =~= hands@,
                    forall|i: int, j: int|
                        0 <= i < a && 0 <= j < 4 && i != j ==> hands@[i] & hands@[j] == 0,
                    forall|j: int| 0 <= j < b && j != a ==> hands@[a as int] & hands@[j] == 0,
                decreases 4 - b,
            {
                if b != a {
                    if hands[a] & hands[b] != 0 {
                        return Err("Hands overlap");
                    }
                }
                b = b + 1;
            }
            proof {
                assert forall|i: int, j: int|
                    0 <= i < a + 1 && 0 <= j < 4 && i != j implies hands@[i] & hands@[j] == 0 by {
                    if i == a as int {
                    } else if j == a as int {
                        crate::cards::lemma_mask_identities(hands@[i], hands@[j]);
                    }
                }
            }
            a = a + 1;
        }
        proof {
            assert forall|i: int, j: int|
                0 <= i < 4 && 0 <= j < 4 && i != j implies h[i] & h[j] == 0 by {
                assert(h[i] == hands@[i] && h[j] == hands@[j]);
            }
        }
        Ok(CoincheMatch::new_rs(dealer, h))
    }

    /// One spoken turn of the auction; when it ends the auction, the match
    /// moves on to play or, after four opening passes, straight to a
    /// contractless finish.
    pub fn bid(&mut self, bid: Option<Bid>) -> (r: Result<(), &'static str>)
        requires
            match_wf(*old(self)),
        ensures
            match_wf(*final(self)),
            old(self).phase is Bidding || (r is Err && *final(self) == *old(self)),
    {
        let finished: bool;
        match &mut self.phase {
            Phase::Bidding(state) => {
                if let Some(b) = bid {
                    if b.trump >= 6 {
                        return Err("Bid trump out of range");
                    }
                }
                match state.apply_bid(bid) {
                    Err(e) => {
                        return Err(e);
                    },
                    Ok(()) => {},
                }
                finished = state.is_finished();
                let level = state.coinche_level;
                self.coinche_level = level;
            },
            _ => {
                return Err("Not in bidding phase");
            },
        }
        if finished {
            self.transition_from_bidding();
        }
        Ok(())
    }

    /// Coinche the standing contract.
    pub fn coinche(&mut self) -> (r: Result<(), &'static str>)
        requires
            match_wf(*old(self)),
        ensures
            match_wf(*final(self)),
    {
        let finished: bool;
        match &mut self.phase {
            Phase::Bidding(state) => {
                match state.coinche() {
                    Err(e) => {
                        return Err(e);
                    },
                    Ok(()) => {},
                }
                finished = state.is_finished();
                let level = state.coinche_level;
                self.coinche_level = level;
            },
            _ => {
                return Err("Not in bidding phase");
            },
        }
        if finished {
            self.transition_from_bidding();
        }
        Ok(())
    }

    /// Surcoinche a coinched contract, which ends the auction.
    pub fn surcoinche(&mut self) -> (r: Result<(), &'static str>)
        requires
            match_wf(*old(self)),
        ensures
            match_wf(*final(self)),
    {
        let finished: bool;
        match &mut self.phase {
            Phase::Bidding(state) => {
                match state.surcoinche() {
                    Err(e) => {
                        return Err(e);
                    },
                    Ok(()) => {},
                }
                finished = state.is_finished();
                let level = state.coinche_level;
                self.coinche_level = level;
            },
            _ => {
                return Err("Not in bidding phase");
            },
        }
        if finished {
            self.transition_from_bidding();
        }
        Ok(())
    }

    /// Close the auction: with a contract, deal the stored hands into a
    /// play state led by the seat after the dealer; without one, finish
    /// the round scoreless.
    fn transition_from_bidding(&mut self)
        requires
            old(self).dealer < 4,
            forall|i: int, j: int|
                0 <= i < 4 && 0 <= j < 4 && i != j ==> old(self).initial_hands[i]
                    & old(self).initial_hands[j] == 0,
            old(self).phase is Bidding,
            match old(self).phase->Bidding_0.contract {
                Some(c) => c.trump < 6,
                None => true,
            },
        ensures
            match_wf(*final(self)),
    {
        let (contract, owner): (Option<Bid>, Option<u8>) = match &self.phase {
            Phase::Bidding(state) => (state.contract, state.contract_owner),
            _ => (None, None),
        };
        match contract {
            Some(final_contract) => {
                let owner_seat: u8 = match owner {
                    Some(o) => o % 4,
                    None => 0,
                };
                self.contract = Some(final_contract);
                self.contract_owner = Some(owner_seat);
                let mut game = PlayingState::new(final_contract.trump);
                game.hands = self.initial_hands;
                game.current_player = (self.dealer + 1) % 4;
                game.trick_starter = game.current_player;
                proof {
                    lemma_initial_state(game);
                }
                self.phase = Phase::Playing(game);
            },
            None => {
                self.phase = Phase::Finished(
                    MatchResult {
                        contract: None,
                        contract_owner: None,
                        points_ns: 0,
                        points_ew: 0,
                        contract_made: false,
                    },
                );
            },
        }
    }

    /// Play one card.  An illegal card, or a card outside the play phase,
    /// is refused and changes nothing; the final card settles the match
    /// against the contract.
    pub fn play_card(&mut self, card: u8) -> (r: Result<(), &'static str>)
        requires
            match_wf(*old(self)),
        ensures
            match_wf(*final(self)),
            r is Ok <==> (old(self).phase is Playing && card < 32 && card_legal(
                old(self).phase->Playing_0,
                card,
            )),
            r is Ok ==> {
                let next = play_card_spec(old(self).phase->Playing_0, card);
                if is_terminal_spec(next) {
                    final(self).phase is Finished
                } else {
                    final(self).phase == Phase::Playing(next)
                }
            },
    {
        let (contract, owner): (Option<Bid>, Option<u8>) = (self.contract, self.contract_owner);
        match &mut self.phase {
            Phase::Playing(state) => {
                if card >= 32 {
                    proof {
                        assert(!card_legal(*state, card));
                    }
                    return Err("Illegal move");
                }
                let legal = state.get_legal_moves();
                if !holds(legal, card) {
                    return Err("Illegal move");
                }
                proof {
                    assert(card_legal(*state, card));
                }
                state.play_card(card);

                if state.is_terminal() {
                    let ns_score = state.points[0] as i16;
                    let ew_score = state.points[1] as i16;
                    proof {
                        crate::playing::lemma_points_bounded(*state);
                    }
                    let (contract_value, owner_seat): (u8, u8) = match (contract, owner) {
                        (Some(c), Some(o)) => (c.value, o),
                        _ => (0, 0),
                    };
                    let owner_score = if owner_seat % 2 == 0 {
                        ns_score
                    } else {
                        ew_score
                    };
                    let contract_made = owner_score >= contract_value as i16;
                    self.phase = Phase::Finished(
                        MatchResult {
                            contract,
                            contract_owner: owner,
                            points_ns: ns_score,
                            points_ew: ew_score,
                            contract_made,
                        },
                    );
                }
                Ok(())
            },
            _ => {
                Err("Not in playing phase")
            },
        }
    }

    /// Name of the current phase.
    pub fn phase_name(&self) -> (r: String)
        ensures
            self.phase is Bidding ==> r@ == "BIDDING"@,
            self.phase is Playing ==> r@ == "PLAYING"@,
            self.phase is Finished ==> r@ == "FINISHED"@,
    {
        match &self.phase {
            Phase::Bidding(_) => "BIDDING".to_string(),
            Phase::Playing(_) => "PLAYING".to_string(),
            Phase::Finished(_) => "FINISHED".to_string(),
        }
    }

    /// The auction state, while the auction runs.
    pub fn get_bidding_state(&self) -> (r: Option<BiddingState>)
        ensures
            r is Some <==> self.phase is Bidding,
    {
        match &self.phase {
            Phase::Bidding(s) => Some(s.clone()),
            _ => None,
        }
    }

    /// The play state, while cards are being played.
    pub fn get_playing_state(&self) -> (r: Option<PlayingState>)
        ensures
            r is Some <==> self.phase is Playing,
            self.phase is Playing ==> r == Some(self.phase->Playing_0),
    {
        match &self.phase {
            Phase::Playing(s) => Some(*s),
            _ => None,
        }
    }

    /// The verdict, once the match is settled.
    pub fn get_result(&self) -> (r: Option<MatchResult>)
        ensures
            r is Some <==> self.phase is Finished,
    {
        match &self.phase {
            Phase::Finished(s) => Some(s.clone()),
            _ => None,
        }
    }

    /// The four hands as the current phase sees them: as dealt during the
    /// auction, as they stand during play, empty once settled.
    pub fn hands(&self) -> (r: [u32; 4])
        ensures
            self.phase is Bidding ==> r == self.initial_hands,
            self.phase is Playing ==> r == self.phase->Playing_0.hands,
            self.phase is Finished ==> r == [0u32, 0u32, 0u32, 0u32],
    {
        match &self.phase {
            Phase::Bidding(_) => self.initial_hands,
            Phase::Playing(p) => p.hands,
            Phase::Finished(_) => [0u32, 0u32, 0u32, 0u32],
        }
    }
}

} // verus!
